use zmap_rs::constraint_box::{set_recurse, Constraint, TreeNode, ADDR_ALLOWED, ADDR_DISALLOWED};

#[test]
fn constraint_box_test_constraint() {
    let root = Box::new(TreeNode::new(ADDR_DISALLOWED));
    let mut constraint = Constraint::new(root);

    let ip1 = u32::from_be_bytes([0, 0, 0, 0]);
    set_recurse(&mut constraint.root, ip1, 8, ADDR_ALLOWED);

    let count = constraint.count_ips(ADDR_ALLOWED);
    assert_eq!(count, 1 << 24);
    assert!(constraint.lookup(ip1) == ADDR_ALLOWED);

    let ip2 = u32::from_be_bytes([192, 168, 1, 1]);
    set_recurse(&mut constraint.root, ip2, 32, ADDR_DISALLOWED);
    let count = constraint.count_ips(ADDR_DISALLOWED);
    assert_eq!(count, (1u64 << 32) - (1 << 24));
    assert!(constraint.lookup(ip2) == ADDR_DISALLOWED);
}

#[test]
fn box_tree_collapses_equal_leaves() {
    let mut root = Box::new(TreeNode::new(ADDR_DISALLOWED));
    set_recurse(&mut root, 0x8000_0000, 1, ADDR_ALLOWED);
    assert!(!root.is_leaf());
    set_recurse(&mut root, 0, 1, ADDR_ALLOWED);
    assert!(root.is_leaf());
    assert_eq!(root.val, ADDR_ALLOWED);
}

#[test]
fn box_tree_later_paint_wins() {
    let mut c = Constraint::new(Box::new(TreeNode::new(ADDR_ALLOWED)));
    set_recurse(&mut c.root, u32::from_be_bytes([10, 0, 0, 0]), 8, ADDR_DISALLOWED);
    set_recurse(&mut c.root, u32::from_be_bytes([10, 1, 0, 0]), 16, ADDR_ALLOWED);
    set_recurse(&mut c.root, u32::from_be_bytes([10, 1, 2, 3]), 32, ADDR_DISALLOWED);
    assert_eq!(c.lookup(u32::from_be_bytes([10, 0, 0, 1])), ADDR_DISALLOWED);
    assert_eq!(c.lookup(u32::from_be_bytes([10, 1, 0, 1])), ADDR_ALLOWED);
    assert_eq!(c.lookup(u32::from_be_bytes([10, 1, 2, 3])), ADDR_DISALLOWED);
    assert_eq!(c.lookup(u32::from_be_bytes([11, 0, 0, 0])), ADDR_ALLOWED);
    assert_eq!(c.count_ips(ADDR_DISALLOWED), (1u64 << 24) - (1 << 16) + 1);
}

#[test]
fn box_tree_counts_add_up() {
    let mut c = Constraint::new(Box::new(TreeNode::new(ADDR_ALLOWED)));
    set_recurse(&mut c.root, u32::from_be_bytes([10, 0, 0, 0]), 8, ADDR_DISALLOWED);
    set_recurse(&mut c.root, u32::from_be_bytes([172, 16, 0, 0]), 12, ADDR_DISALLOWED);
    assert_eq!(c.count_ips(ADDR_ALLOWED) + c.count_ips(ADDR_DISALLOWED), 1u64 << 32);
    assert_eq!(c.count_ips(ADDR_ALLOWED), (1u64 << 32) - (1 << 24) - (1 << 20));
}

#[test]
fn box_tree_optimize_keeps_lookups() {
    let mut c = Constraint::new(Box::new(TreeNode::new(ADDR_ALLOWED)));
    set_recurse(&mut c.root, u32::from_be_bytes([10, 0, 0, 0]), 8, ADDR_DISALLOWED);
    set_recurse(&mut c.root, u32::from_be_bytes([192, 168, 1, 128]), 25, ADDR_DISALLOWED);
    let probes = [
        u32::from_be_bytes([10, 255, 255, 255]),
        u32::from_be_bytes([11, 0, 0, 0]),
        u32::from_be_bytes([192, 168, 1, 127]),
        u32::from_be_bytes([192, 168, 1, 128]),
        u32::from_be_bytes([192, 168, 1, 255]),
        0,
        u32::MAX,
    ];
    let before: Vec<i32> = probes.iter().map(|a| c.lookup(*a)).collect();
    c.optimize();
    assert!(c.optimized);
    assert_eq!(c.radix.len(), 65536);
    let after: Vec<i32> = probes.iter().map(|a| c.lookup(*a)).collect();
    assert_eq!(before, after);
    assert_eq!(after, vec![0, 1, 1, 0, 0, 1, 1]);
    c.optimize();
    assert_eq!(c.radix.len(), 65536);
}

#[test]
fn box_tree_lookup_node_stops_at_leaf() {
    let mut c = Constraint::new(Box::new(TreeNode::new(ADDR_ALLOWED)));
    set_recurse(&mut c.root, 0x8000_0000, 2, ADDR_DISALLOWED);
    assert!(c.lookup_node(0, 16).is_leaf());
    assert_eq!(c.lookup_node(0, 16).val, ADDR_ALLOWED);
    assert!(!c.lookup_node(0x8000_0000, 1).is_leaf());
    assert_eq!(c.lookup_node(0x8000_0000, 2).val, ADDR_DISALLOWED);
    assert!(!c.lookup_node(0x8000_0000, 0).is_leaf());
}

#[test]
fn box_tree_set_leaves_the_table() {
    let mut c = Constraint::new(Box::new(TreeNode::new(ADDR_ALLOWED)));
    c.set(u32::from_be_bytes([10, 0, 0, 0]), 8, ADDR_DISALLOWED);
    c.optimize();
    assert!(c.optimized);
    c.set(u32::from_be_bytes([10, 20, 0, 0]), 16, ADDR_ALLOWED);
    assert!(!c.optimized);
    assert_eq!(c.lookup(u32::from_be_bytes([10, 20, 30, 40])), ADDR_ALLOWED);
    assert_eq!(c.lookup(u32::from_be_bytes([10, 21, 30, 40])), ADDR_DISALLOWED);
    c.optimize();
    assert_eq!(c.radix.len(), 65536);
    assert_eq!(c.lookup(u32::from_be_bytes([10, 20, 30, 40])), ADDR_ALLOWED);
    assert_eq!(c.lookup(u32::from_be_bytes([10, 21, 30, 40])), ADDR_DISALLOWED);
    assert_eq!(c.lookup_ip(&c.root, u32::from_be_bytes([10, 20, 30, 40])), ADDR_ALLOWED);
    assert_eq!(c.count_ips_recurse(&c.root, ADDR_DISALLOWED, 1u64 << 32), (1u64 << 24) - (1 << 16));
}
