use zmap_rs::constraint::{set_recurse, Constraint, TreeNode, ADDR_ALLOWED, ADDR_DISALLOWED};

#[test]
fn constraint_test_constraint() {
    let root = TreeNode::new(ADDR_DISALLOWED);
    let mut constraint = Constraint::new(root);

    let ip1 = u32::from_be_bytes([0, 0, 0, 0]);
    set_recurse(&mut constraint.nodes, constraint.root, ip1, 8, ADDR_ALLOWED);

    let count = constraint.count_ips(ADDR_ALLOWED);
    assert_eq!(count, 1 << 24);

    let ip2 = u32::from_be_bytes([192, 168, 1, 1]);
    set_recurse(&mut constraint.nodes, constraint.root, ip2, 32, ADDR_DISALLOWED);

    constraint.optimize();

    let count = constraint.count_ips(ADDR_DISALLOWED);
    assert_eq!(count, (1u64 << 32) - (1 << 24));

    assert!(constraint.lookup(ip1) == ADDR_ALLOWED);
    assert!(constraint.lookup(ip2) == ADDR_DISALLOWED);
}

#[test]
fn arena_tree_collapses_equal_leaves() {
    let mut c = Constraint::new(TreeNode::new(ADDR_DISALLOWED));
    c.set(0x8000_0000, 1, ADDR_ALLOWED);
    let root = c.nodes[c.root];
    assert!(root.left.is_some() && root.right.is_some());
    c.set(0, 1, ADDR_ALLOWED);
    let root = c.nodes[c.root];
    assert!(root.left.is_none() && root.right.is_none());
    assert_eq!(root.val, ADDR_ALLOWED);
    assert_eq!(c.count_ips(ADDR_ALLOWED), 1u64 << 32);
}

#[test]
fn arena_tree_later_paint_wins() {
    let mut c = Constraint::new(TreeNode::new(ADDR_ALLOWED));
    c.set(u32::from_be_bytes([10, 0, 0, 0]), 8, ADDR_DISALLOWED);
    c.set(u32::from_be_bytes([10, 1, 0, 0]), 16, ADDR_ALLOWED);
    c.set(u32::from_be_bytes([10, 1, 2, 3]), 32, ADDR_DISALLOWED);
    assert_eq!(c.lookup(u32::from_be_bytes([10, 0, 0, 1])), ADDR_DISALLOWED);
    assert_eq!(c.lookup(u32::from_be_bytes([10, 1, 0, 1])), ADDR_ALLOWED);
    assert_eq!(c.lookup(u32::from_be_bytes([10, 1, 2, 3])), ADDR_DISALLOWED);
    assert_eq!(c.lookup(u32::from_be_bytes([11, 0, 0, 0])), ADDR_ALLOWED);
    assert_eq!(c.count_ips(ADDR_DISALLOWED), (1u64 << 24) - (1 << 16) + 1);
    assert_eq!(c.count_ips(ADDR_ALLOWED) + c.count_ips(ADDR_DISALLOWED), 1u64 << 32);
}

#[test]
fn arena_tree_optimize_keeps_lookups_and_set_leaves_the_table() {
    let mut c = Constraint::new(TreeNode::new(ADDR_ALLOWED));
    c.set(u32::from_be_bytes([10, 0, 0, 0]), 8, ADDR_DISALLOWED);
    c.set(u32::from_be_bytes([192, 168, 1, 128]), 25, ADDR_DISALLOWED);
    let probes = [
        u32::from_be_bytes([10, 255, 255, 255]),
        u32::from_be_bytes([11, 0, 0, 0]),
        u32::from_be_bytes([192, 168, 1, 127]),
        u32::from_be_bytes([192, 168, 1, 128]),
        u32::from_be_bytes([192, 168, 1, 255]),
        0,
        u32::MAX,
    ];
    let before: Vec<i32> = probes.iter().map(|a| c.lookup(*a)).collect();
    c.optimize();
    assert!(c.optimized);
    assert_eq!(c.radix.len(), 65536);
    let after: Vec<i32> = probes.iter().map(|a| c.lookup(*a)).collect();
    assert_eq!(before, after);
    assert_eq!(after, vec![0, 1, 1, 0, 0, 1, 1]);
    c.optimize();
    assert_eq!(c.radix.len(), 65536);

    c.set(u32::from_be_bytes([192, 168, 1, 0]), 25, ADDR_DISALLOWED);
    assert!(!c.optimized);
    assert_eq!(c.lookup(u32::from_be_bytes([192, 168, 1, 127])), ADDR_DISALLOWED);
    assert_eq!(c.lookup(u32::from_be_bytes([192, 168, 2, 0])), ADDR_ALLOWED);
    c.optimize();
    assert_eq!(c.radix.len(), 65536);
    assert_eq!(c.lookup(u32::from_be_bytes([192, 168, 1, 127])), ADDR_DISALLOWED);
    assert_eq!(c.lookup(u32::from_be_bytes([192, 168, 1, 255])), ADDR_DISALLOWED);
    assert_eq!(c.lookup(u32::from_be_bytes([192, 168, 0, 255])), ADDR_ALLOWED);
}

#[test]
fn arena_tree_lookup_node_stops_at_leaf() {
    let mut c = Constraint::new(TreeNode::new(ADDR_ALLOWED));
    c.set(0x8000_0000, 2, ADDR_DISALLOWED);
    let place = c.lookup_node(c.root, 0, 16);
    assert!(c.nodes[place].left.is_none());
    assert_eq!(c.nodes[place].val, ADDR_ALLOWED);
    let place = c.lookup_node(c.root, 0x8000_0000, 1);
    assert!(c.nodes[place].left.is_some());
    let place = c.lookup_node(c.root, 0x8000_0000, 2);
    assert_eq!(c.nodes[place].val, ADDR_DISALLOWED);
    assert_eq!(c.lookup_node(c.root, 0x8000_0000, 0), c.root);
    assert_eq!(c.lookup_ip(place, 12345), ADDR_DISALLOWED);
    assert_eq!(c.count_ips_recurse(place, ADDR_DISALLOWED, 1 << 30), 1 << 30);
}
