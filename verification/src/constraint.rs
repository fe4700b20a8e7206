//! The allow/deny prefix tree, with all nodes in one arena and children named
//! by their place in it.
//!
//! A node's children always stand after the node itself, and no node has two
//! parents. Nodes that a painting step cuts off stay in the arena, unused.

use vstd::prelude::*;
use vstd::arithmetic::power2::{lemma2_to64, lemma_pow2_unfold, pow2};
use crate::bits::{
    aligned,
    aligned_set,
    covers,
    halves,
    lemma_aligned_count,
    lemma_covers_step,
    lemma_halves,
    lemma_shift_facts,
    painted_value,
    tail,
    top_bit,
    Paint,
};

verus! {

/// The value of an address that must not be probed.
pub const ADDR_DISALLOWED: i32 = 0;

/// The value of an address that may be probed.
pub const ADDR_ALLOWED: i32 = 1;

/// The number of leading address bits that the radix table resolves.
pub const RADIX_LENGTH: u32 = 16;

/// The number of entries of a filled radix table.
pub const RADIX_SIZE: usize = 65536;

/// The number of IPv4 addresses.
pub const ADDRESS_SPACE: u64 = 0x1_0000_0000;

/// A node of the prefix tree: a leaf that holds a value, or an inner node
/// with the places of its two children.
#[derive(Clone, Copy, Debug)]
pub struct TreeNode {
    pub val: i32,
    pub left: Option<usize>,
    pub right: Option<usize>,
}

impl TreeNode {
    pub fn new(val: i32) -> (node: Self)
        ensures
            node == (TreeNode { val, left: None, right: None }),
    {
        TreeNode { val, left: None, right: None }
    }
}

/// Whether the node at `i` has no children.
pub open spec fn leaf(nodes: Seq<TreeNode>, i: int) -> bool {
    0 <= i < nodes.len() && nodes[i].left.is_none() && nodes[i].right.is_none()
}

/// Whether the node at `i` has two children, both of which stand after it.
pub open spec fn inner(nodes: Seq<TreeNode>, i: int) -> bool {
    &&& 0 <= i < nodes.len()
    &&& nodes[i].left.is_some()
    &&& nodes[i].right.is_some()
    &&& i < nodes[i].left.unwrap() < nodes.len()
    &&& i < nodes[i].right.unwrap() < nodes.len()
}

/// The place of the left child of the node at `i`.
pub open spec fn left_of(nodes: Seq<TreeNode>, i: int) -> int {
    nodes[i].left.unwrap() as int
}

/// The place of the right child of the node at `i`.
pub open spec fn right_of(nodes: Seq<TreeNode>, i: int) -> int {
    nodes[i].right.unwrap() as int
}

/// The places of the nodes of the tree below the node at `i`, itself
/// included.
pub open spec fn owned(nodes: Seq<TreeNode>, i: int) -> Set<int>
    decreases nodes.len() - i,
{
    if inner(nodes, i) {
        owned(nodes, left_of(nodes, i)).union(owned(nodes, right_of(nodes, i))).insert(i)
    } else {
        set![i]
    }
}

/// The nodes below `i` form a tree: every node is a leaf or has two children
/// that stand after it, and the trees below the two children share no node.
pub open spec fn shape_ok(nodes: Seq<TreeNode>, i: int) -> bool
    decreases nodes.len() - i,
{
    if inner(nodes, i) {
        &&& shape_ok(nodes, left_of(nodes, i))
        &&& shape_ok(nodes, right_of(nodes, i))
        &&& owned(nodes, left_of(nodes, i)).disjoint(owned(nodes, right_of(nodes, i)))
    } else {
        leaf(nodes, i)
    }
}

/// No inner node below `i` has two leaf children of the same value.
pub open spec fn painted(nodes: Seq<TreeNode>, i: int) -> bool
    decreases nodes.len() - i,
{
    if inner(nodes, i) {
        let l = left_of(nodes, i);
        let r = right_of(nodes, i);
        &&& painted(nodes, l)
        &&& painted(nodes, r)
        &&& !(leaf(nodes, l) && leaf(nodes, r) && nodes[l].val == nodes[r].val)
    } else {
        true
    }
}

/// The nodes below `i` form a well-formed tree.
pub open spec fn tree_ok(nodes: Seq<TreeNode>, i: int) -> bool {
    shape_ok(nodes, i) && painted(nodes, i)
}

/// The number of levels below the node at `i`.
pub open spec fn height(nodes: Seq<TreeNode>, i: int) -> nat
    decreases nodes.len() - i,
{
    if inner(nodes, i) {
        let l = height(nodes, left_of(nodes, i));
        let r = height(nodes, right_of(nodes, i));
        if l >= r {
            l + 1
        } else {
            r + 1
        }
    } else {
        0
    }
}

/// The value that the tree below `i` gives to `addr`, whose most significant
/// bit decides the branch at `i`.
pub open spec fn value_at(nodes: Seq<TreeNode>, i: int, addr: u32) -> i32
    decreases nodes.len() - i,
{
    if inner(nodes, i) {
        if top_bit(addr) {
            value_at(nodes, right_of(nodes, i), tail(addr))
        } else {
            value_at(nodes, left_of(nodes, i), tail(addr))
        }
    } else {
        nodes[i].val
    }
}

/// The number of addresses with value `value` below `i`, when the node
/// spans `size` addresses: a leaf counts its whole span or nothing, an inner
/// node gives each child half of its span.
pub open spec fn count(nodes: Seq<TreeNode>, i: int, value: i32, size: nat) -> nat
    decreases nodes.len() - i,
{
    if inner(nodes, i) {
        count(nodes, left_of(nodes, i), value, size / 2) + count(
            nodes,
            right_of(nodes, i),
            value,
            size / 2,
        )
    } else if nodes[i].val == value {
        size
    } else {
        0
    }
}

/// The place reached from `i` by following the `n` leading bits of `addr`, or
/// the leaf that ends the walk earlier.
pub open spec fn descend(nodes: Seq<TreeNode>, i: int, addr: u32, n: nat) -> int
    decreases nodes.len() - i,
{
    if n > 0 && inner(nodes, i) {
        if top_bit(addr) {
            descend(nodes, right_of(nodes, i), tail(addr), (n - 1) as nat)
        } else {
            descend(nodes, left_of(nodes, i), tail(addr), (n - 1) as nat)
        }
    } else {
        i
    }
}

/// Every leaf below `i` holds `ADDR_ALLOWED` or `ADDR_DISALLOWED`.
pub open spec fn binary(nodes: Seq<TreeNode>, i: int) -> bool
    decreases nodes.len() - i,
{
    if inner(nodes, i) {
        binary(nodes, left_of(nodes, i)) && binary(nodes, right_of(nodes, i))
    } else {
        nodes[i].val == ADDR_ALLOWED || nodes[i].val == ADDR_DISALLOWED
    }
}

/// The nodes of a tree stand at its root or after it, inside the arena.
pub proof fn lemma_owned_bounds(nodes: Seq<TreeNode>, i: int)
    requires
        0 <= i < nodes.len(),
    ensures
        owned(nodes, i).contains(i),
        forall|j: int| owned(nodes, i).contains(j) ==> i <= j < nodes.len(),
    decreases nodes.len() - i,
{
    if inner(nodes, i) {
        lemma_owned_bounds(nodes, left_of(nodes, i));
        lemma_owned_bounds(nodes, right_of(nodes, i));
    }
}

/// A tree is the same in two arenas that agree on its nodes.
pub proof fn lemma_same_subtree(a: Seq<TreeNode>, b: Seq<TreeNode>, i: int)
    requires
        shape_ok(a, i),
        0 <= i < a.len() <= b.len(),
        forall|j: int| 0 <= j < a.len() && owned(a, i).contains(j) ==> b[j] == a[j],
    ensures
        shape_ok(b, i),
        owned(b, i) == owned(a, i),
        painted(b, i) == painted(a, i),
        height(b, i) == height(a, i),
        binary(b, i) == binary(a, i),
        leaf(b, i) == leaf(a, i),
        b[i] == a[i],
        forall|addr: u32| #[trigger] value_at(b, i, addr) == value_at(a, i, addr),
        forall|value: i32, size: nat| #[trigger] count(b, i, value, size) == count(a, i, value, size),
        forall|addr: u32, n: nat| #[trigger] descend(b, i, addr, n) == descend(a, i, addr, n),
    decreases a.len() - i,
{
    lemma_owned_bounds(a, i);
    if inner(a, i) {
        let l = left_of(a, i);
        let r = right_of(a, i);
        lemma_owned_bounds(a, l);
        lemma_owned_bounds(a, r);
        assert(inner(b, i));
        assert forall|j: int| 0 <= j < a.len() && owned(a, l).contains(j) implies b[j] == a[j] by {
            assert(owned(a, i).contains(j));
        }
        assert forall|j: int| 0 <= j < a.len() && owned(a, r).contains(j) implies b[j] == a[j] by {
            assert(owned(a, i).contains(j));
        }
        lemma_same_subtree(a, b, l);
        lemma_same_subtree(a, b, r);
        assert(owned(b, i) =~= owned(a, i));
        assert forall|addr: u32| #[trigger] value_at(b, i, addr) == value_at(a, i, addr) by {
            if top_bit(addr) {
                assert(value_at(b, r, tail(addr)) == value_at(a, r, tail(addr)));
            } else {
                assert(value_at(b, l, tail(addr)) == value_at(a, l, tail(addr)));
            }
        }
        assert forall|value: i32, size: nat| #[trigger]
            count(b, i, value, size) == count(a, i, value, size) by {
            assert(count(b, l, value, size / 2) == count(a, l, value, size / 2));
            assert(count(b, r, value, size / 2) == count(a, r, value, size / 2));
        }
        assert forall|addr: u32, n: nat| #[trigger] descend(b, i, addr, n) == descend(a, i, addr, n) by {
            if n > 0 {
                if top_bit(addr) {
                    assert(descend(b, r, tail(addr), (n - 1) as nat) == descend(
                        a,
                        r,
                        tail(addr),
                        (n - 1) as nat,
                    ));
                } else {
                    assert(descend(b, l, tail(addr), (n - 1) as nat) == descend(
                        a,
                        l,
                        tail(addr),
                        (n - 1) as nat,
                    ));
                }
            }
        }
    } else {
        assert(!inner(b, i));
    }
}

/// The tree below `i` in `after` is that of `before` with the subnet of
/// `paint` painted over: the addresses it covers have its value, all others
/// have the value they had.
pub open spec fn repainted(before: Seq<TreeNode>, after: Seq<TreeNode>, i: int, paint: Paint) -> bool {
    forall|a: u32| #[trigger]
        value_at(after, i, a) == if covers(paint.prefix, paint.len, a) {
            paint.value
        } else {
            value_at(before, i, a)
        }
}

/// From `before` to `after` the arena only grew, nothing outside the tree
/// below `i` changed, and that tree took no node from elsewhere in the old
/// arena.
pub open spec fn grown(before: Seq<TreeNode>, after: Seq<TreeNode>, i: int) -> bool {
    &&& before.len() <= after.len()
    &&& forall|j: int|
        0 <= j < before.len() && !owned(before, i).contains(j) ==> #[trigger] after[j] == before[j]
    &&& forall|j: int| #[trigger]
        owned(after, i).contains(j) ==> owned(before, i).contains(j) || before.len() <= j
}

/// Paints the subnet `prefix/len` below the node at `node` with `value`:
/// every address that the prefix covers gets `value`, every other address
/// keeps what it had. New nodes go to the end of the arena.
pub fn set_recurse(nodes: &mut Vec<TreeNode>, node: usize, prefix: u32, len: i32, value: i32)
    requires
        tree_ok(old(nodes)@, node as int),
        0 <= len <= 32,
    ensures
        tree_ok(final(nodes)@, node as int),
        grown(old(nodes)@, final(nodes)@, node as int),
        repainted(
            old(nodes)@,
            final(nodes)@,
            node as int,
            (Paint { prefix, len: len as int, value }),
        ),
        height(final(nodes)@, node as int) <= height(old(nodes)@, node as int) || height(
            final(nodes)@,
            node as int,
        ) <= len,
        binary(old(nodes)@, node as int) && (value == ADDR_ALLOWED || value == ADDR_DISALLOWED)
            ==> binary(final(nodes)@, node as int),
    decreases len,
{
    let ghost before = nodes@;
    proof {
        lemma_owned_bounds(before, node as int);
    }
    if len == 0 {
        nodes.set(node, TreeNode::new(value));
        return ;
    }
    let current = nodes[node];
    if current.left.is_none() && current.right.is_none() {
        if current.val == value {
            return ;
        }
        let l = nodes.len();
        nodes.push(TreeNode::new(current.val));
        let r = nodes.len();
        nodes.push(TreeNode::new(current.val));
        nodes.set(node, TreeNode { val: current.val, left: Some(l), right: Some(r) });
    }
    let ghost split = nodes@;
    let here = nodes[node];
    let left = here.left.unwrap();
    let right = here.right.unwrap();
    proof {
        lemma_owned_bounds(split, left as int);
        lemma_owned_bounds(split, right as int);
        assert(inner(split, node as int));
        assert(shape_ok(split, left as int) && shape_ok(split, right as int));
        assert(painted(split, left as int) && painted(split, right as int));
        assert(owned(split, left as int).disjoint(owned(split, right as int)));
        assert forall|a: u32| #[trigger] value_at(split, node as int, a) == value_at(
            before,
            node as int,
            a,
        ) by {
            if leaf(before, node as int) {
                assert(value_at(split, left as int, tail(a)) == before[node as int].val);
                assert(value_at(split, right as int, tail(a)) == before[node as int].val);
            }
        }
        assert forall|a: u32|
            covers(prefix, len as int, a) <==> (top_bit(prefix) == top_bit(a) && covers(
                tail(prefix),
                len - 1,
                tail(a),
            )) by {
            lemma_covers_step(prefix, len as int, a);
        }
    }
    let child = if prefix & 0x8000_0000 != 0 {
        right
    } else {
        left
    };
    let ghost other = if child == right {
        left as int
    } else {
        right as int
    };
    set_recurse(nodes, child, prefix << 1, len - 1, value);
    let ghost after = nodes@;
    proof {
        lemma_owned_bounds(after, child as int);
        assert(after[node as int] == split[node as int]);
        assert forall|j: int| 0 <= j < split.len() && owned(split, other).contains(j) implies after[j]
            == split[j] by {
            assert(!owned(split, child as int).contains(j));
        }
        lemma_same_subtree(split, after, other);
        assert(inner(after, node as int));
        assert(owned(after, left as int).disjoint(owned(after, right as int))) by {
            assert forall|j: int| owned(after, child as int).contains(j) implies !owned(
                after,
                other,
            ).contains(j) by {
                if owned(after, other).contains(j) {
                    assert(owned(split, other).contains(j));
                    assert(owned(split, child as int).contains(j) || split.len() <= j);
                }
            }
        }
        assert(shape_ok(after, node as int));
        assert forall|a: u32| #[trigger]
            value_at(after, node as int, a) == if covers(prefix, len as int, a) {
                value
            } else {
                value_at(before, node as int, a)
            } by {
            assert(value_at(split, node as int, a) == value_at(before, node as int, a));
            if top_bit(a) {
                assert(value_at(after, node as int, a) == value_at(after, right as int, tail(a)));
                assert(value_at(split, node as int, a) == value_at(split, right as int, tail(a)));
            } else {
                assert(value_at(after, node as int, a) == value_at(after, left as int, tail(a)));
                assert(value_at(split, node as int, a) == value_at(split, left as int, tail(a)));
            }
        }
    }
    let l = nodes[left];
    let r = nodes[right];
    if l.left.is_none() && l.right.is_none() && r.left.is_none() && r.right.is_none() && l.val
        == r.val {
        nodes.set(node, TreeNode::new(l.val));
        proof {
            assert forall|a: u32| #[trigger] value_at(nodes@, node as int, a) == value_at(
                after,
                node as int,
                a,
            ) by {
                assert(value_at(after, left as int, tail(a)) == l.val);
                assert(value_at(after, right as int, tail(a)) == l.val);
            }
        }
    }
    proof {
        let last = nodes@;
        assert forall|j: int| 0 <= j < before.len() && !owned(before, node as int).contains(
            j,
        ) implies #[trigger] last[j] == before[j] by {
            assert(after[j] == split[j]);
        }
        assert forall|j: int| #[trigger] owned(last, node as int).contains(j) implies owned(
            before,
            node as int,
        ).contains(j) || before.len() <= j by {
            if j != node && owned(after, node as int).contains(j) {
                if owned(after, child as int).contains(j) {
                    assert(owned(split, child as int).contains(j) || split.len() <= j);
                } else {
                    assert(owned(split, other).contains(j));
                }
            }
        }
    }
}

/// A tree never counts more addresses than it spans.
pub proof fn lemma_count_bounded(nodes: Seq<TreeNode>, i: int, value: i32, size: nat)
    ensures
        count(nodes, i, value, size) <= size,
    decreases nodes.len() - i,
{
    if inner(nodes, i) {
        lemma_count_bounded(nodes, left_of(nodes, i), value, size / 2);
        lemma_count_bounded(nodes, right_of(nodes, i), value, size / 2);
    }
}

/// Walking down `n` levels along `addr` and looking up what is left of `addr`
/// there gives the value that the whole tree has at `addr`.
pub proof fn lemma_descend_value(nodes: Seq<TreeNode>, i: int, addr: u32, n: nat)
    requires
        n <= 16,
    ensures
        value_at(nodes, descend(nodes, i, addr, n), addr << (n as u32)) == value_at(nodes, i, addr),
    decreases nodes.len() - i,
{
    if n > 0 && inner(nodes, i) {
        let m = (n - 1) as u32;
        assert((addr << 1u32) << m == addr << ((m + 1) as u32)) by (bit_vector)
            requires
                m < 16,
        ;
        if top_bit(addr) {
            lemma_descend_value(nodes, right_of(nodes, i), tail(addr), (n - 1) as nat);
        } else {
            lemma_descend_value(nodes, left_of(nodes, i), tail(addr), (n - 1) as nat);
        }
    } else if n == 0 {
        assert(addr << 0u32 == addr) by (bit_vector);
    }
}

/// Every node reached in a well-formed tree is the root of a well-formed
/// tree.
pub proof fn lemma_descend_tree_ok(nodes: Seq<TreeNode>, i: int, addr: u32, n: nat)
    requires
        tree_ok(nodes, i),
    ensures
        tree_ok(nodes, descend(nodes, i, addr, n)),
        0 <= descend(nodes, i, addr, n) < nodes.len(),
    decreases nodes.len() - i,
{
    if n > 0 && inner(nodes, i) {
        if top_bit(addr) {
            lemma_descend_tree_ok(nodes, right_of(nodes, i), tail(addr), (n - 1) as nat);
        } else {
            lemma_descend_tree_ok(nodes, left_of(nodes, i), tail(addr), (n - 1) as nat);
        }
    }
}

/// The walk down `n` levels depends only on the `n` leading bits of the
/// address.
pub proof fn lemma_descend_prefix(nodes: Seq<TreeNode>, i: int, a: u32, b: u32, n: nat)
    requires
        n <= 32,
        covers(a, n as int, b),
    ensures
        descend(nodes, i, a, n) == descend(nodes, i, b, n),
    decreases nodes.len() - i,
{
    if n > 0 && inner(nodes, i) {
        lemma_covers_step(a, n as int, b);
        if top_bit(a) {
            lemma_descend_prefix(nodes, right_of(nodes, i), tail(a), tail(b), (n - 1) as nat);
        } else {
            lemma_descend_prefix(nodes, left_of(nodes, i), tail(a), tail(b), (n - 1) as nat);
        }
    }
}

/// A tree of height at most `k` whose leaves all hold one of the two values
/// splits a span of `2^k` addresses between them.
pub proof fn lemma_count_split(nodes: Seq<TreeNode>, i: int, k: nat)
    requires
        binary(nodes, i),
        height(nodes, i) <= k,
    ensures
        count(nodes, i, ADDR_ALLOWED, pow2(k)) + count(nodes, i, ADDR_DISALLOWED, pow2(k)) == pow2(
            k,
        ),
    decreases nodes.len() - i,
{
    if inner(nodes, i) {
        lemma_pow2_unfold(k);
        assert(pow2(k) / 2 == pow2((k - 1) as nat));
        lemma_count_split(nodes, left_of(nodes, i), (k - 1) as nat);
        lemma_count_split(nodes, right_of(nodes, i), (k - 1) as nat);
    }
}

/// Painter's rule: after any sequence of painting steps on the tree at
/// `root`, each leading from one arena to the next, the value of an address
/// is that of the most recent step whose prefix covers it, or the value it
/// had at the start.
pub proof fn lemma_painter(arenas: Seq<Seq<TreeNode>>, root: int, paints: Seq<Paint>, addr: u32)
    requires
        arenas.len() == paints.len() + 1,
        forall|i: int|
            0 <= i < paints.len() ==> repainted(#[trigger] arenas[i], arenas[i + 1], root, paints[i]),
    ensures
        value_at(arenas.last(), root, addr) == painted_value(
            value_at(arenas[0], root, addr),
            paints,
            addr,
        ),
    decreases paints.len(),
{
    if paints.len() > 0 {
        let n = paints.len() as int;
        assert(repainted(arenas[n - 1], arenas[n - 1 + 1], root, paints[n - 1]));
        assert(value_at(arenas[n], root, addr) == if covers(
            paints[n - 1].prefix,
            paints[n - 1].len,
            addr,
        ) {
            paints[n - 1].value
        } else {
            value_at(arenas[n - 1], root, addr)
        });
        let shorter = arenas.drop_last();
        assert forall|i: int| 0 <= i < paints.drop_last().len() implies repainted(
            #[trigger] shorter[i],
            shorter[i + 1],
            root,
            paints.drop_last()[i],
        ) by {
            assert(repainted(arenas[i], arenas[i + 1], root, paints[i]));
        }
        lemma_painter(shorter, root, paints.drop_last(), addr);
    }
}

/// The addresses with `z` zero bits at their end to which the tree below `i`
/// gives the value `value`.
pub open spec fn matching(nodes: Seq<TreeNode>, i: int, value: i32, z: nat) -> Set<u32> {
    Set::new(|a: u32| aligned(a, z) && value_at(nodes, i, a) == value)
}

/// The count of a tree is a number of addresses: of the `2^(32 - z)`
/// addresses that a node `z` levels above the deepest level spans, it counts
/// those that have the value.
pub proof fn lemma_count_is_cardinality(nodes: Seq<TreeNode>, i: int, value: i32, z: nat)
    requires
        height(nodes, i) + z <= 32,
    ensures
        matching(nodes, i, value, z).finite(),
        matching(nodes, i, value, z).len() == count(nodes, i, value, pow2((32 - z) as nat)),
    decreases nodes.len() - i,
{
    let whole = matching(nodes, i, value, z);
    if inner(nodes, i) {
        let l = left_of(nodes, i);
        let r = right_of(nodes, i);
        lemma_count_is_cardinality(nodes, l, value, z + 1);
        lemma_count_is_cardinality(nodes, r, value, z + 1);
        let low = matching(nodes, l, value, z + 1);
        let high = matching(nodes, r, value, z + 1);
        assert(halves(whole, low, high, z)) by {
            assert forall|a: u32|
                whole.contains(a) <==> aligned(a, z) && if top_bit(a) {
                    high.contains(tail(a))
                } else {
                    low.contains(tail(a))
                } by {
                lemma_shift_facts(a, z);
            }
        }
        lemma_halves(whole, low, high, z);
        lemma_pow2_unfold((32 - z) as nat);
    } else if nodes[i].val == value {
        assert(whole =~= aligned_set(z));
        lemma_aligned_count(z);
    } else {
        assert(whole =~= Set::<u32>::empty());
    }
}

/// A prefix tree in an arena, with a table that maps each 16-bit prefix to
/// the place of the subtree reached by it. The table is only read while
/// `optimized` is set.
pub struct Constraint {
    pub nodes: Vec<TreeNode>,
    pub root: usize,
    pub radix: Vec<usize>,
    pub optimized: bool,
}

impl Constraint {
    /// The address whose 16 leading bits are `index` and whose other bits are 0.
    pub open spec fn radix_prefix(index: int) -> u32 {
        ((index as u32) << 16u32)
    }

    /// The table has one entry for each 16-bit prefix, and each entry is the
    /// place of the subtree that the prefix leads to.
    pub open spec fn radix_filled(&self) -> bool {
        &&& self.radix@.len() == RADIX_SIZE
        &&& forall|i: int|
            0 <= i < RADIX_SIZE ==> #[trigger] self.radix@[i] == descend(
                self.nodes@,
                self.root as int,
                Self::radix_prefix(i),
                16,
            )
    }

    /// The tree is well formed, no deeper than an address is long, and the
    /// table agrees with it whenever `optimized` is set.
    pub open spec fn wf(&self) -> bool {
        &&& tree_ok(self.nodes@, self.root as int)
        &&& height(self.nodes@, self.root as int) <= 32
        &&& self.optimized ==> self.radix_filled()
    }

    /// The value that the constraint gives to `addr`.
    pub open spec fn value_of(&self, addr: u32) -> i32 {
        value_at(self.nodes@, self.root as int, addr)
    }

    /// Whether every leaf holds `ADDR_ALLOWED` or `ADDR_DISALLOWED`.
    pub open spec fn binary(&self) -> bool {
        binary(self.nodes@, self.root as int)
    }

    /// The number of addresses, of all 2^32, that have value `value`.
    pub open spec fn count_of(&self, value: i32) -> nat {
        count(self.nodes@, self.root as int, value, ADDRESS_SPACE as nat)
    }

    /// The addresses that have the value `value`.
    pub open spec fn addresses_with(&self, value: i32) -> Set<u32> {
        Set::new(|a: u32| self.value_of(a) == value)
    }

    /// A constraint whose tree is the single leaf `root`.
    pub fn new(root: TreeNode) -> (c: Self)
        requires
            root.left.is_none() && root.right.is_none(),
        ensures
            c.nodes@ == seq![root],
            c.root == 0,
            c.radix@.len() == 0,
            !c.optimized,
            c.wf(),
            forall|addr: u32| c.value_of(addr) == root.val,
    {
        let mut nodes = Vec::new();
        nodes.push(root);
        Constraint { nodes, root: 0, radix: Vec::new(), optimized: false }
    }

    /// The value of `addr` in the tree below the node at `node`.
    pub fn lookup_ip(&self, node: usize, addr: u32) -> (v: i32)
        requires
            tree_ok(self.nodes@, node as int),
        ensures
            v == value_at(self.nodes@, node as int, addr),
    {
        let mut cur: usize = node;
        let mut rest: u32 = addr;
        loop
            invariant
                tree_ok(self.nodes@, cur as int),
                0 <= cur < self.nodes@.len(),
                value_at(self.nodes@, cur as int, rest) == value_at(self.nodes@, node as int, addr),
            decreases self.nodes@.len() - cur,
        {
            let here = self.nodes[cur];
            if here.left.is_none() && here.right.is_none() {
                return here.val;
            }
            cur = if rest & 0x8000_0000 != 0 {
                here.right.unwrap()
            } else {
                here.left.unwrap()
            };
            rest = rest << 1;
        }
    }

    /// The value of `addr`, through the radix table where it is filled.
    pub fn lookup(&self, addr: u32) -> (v: i32)
        requires
            self.wf(),
        ensures
            v == self.value_of(addr),
    {
        if self.optimized {
            let index: usize = (addr >> RADIX_LENGTH) as usize;
            assert(index < 65536 && ((index as u32) << 16u32 ^ addr) >> 16u32 == 0) by (bit_vector)
                requires
                    index == addr >> 16u32,
            ;
            let node = self.radix[index];
            proof {
                assert(covers(addr, 16, Self::radix_prefix(index as int))) by {
                    let p = Self::radix_prefix(index as int);
                    assert((p ^ addr) >> 16u32 == 0);
                }
                lemma_descend_prefix(
                    self.nodes@,
                    self.root as int,
                    addr,
                    Self::radix_prefix(index as int),
                    16,
                );
                lemma_descend_value(self.nodes@, self.root as int, addr, 16);
                lemma_descend_tree_ok(self.nodes@, self.root as int, addr, 16);
            }
            return self.lookup_ip(node, addr << RADIX_LENGTH);
        } else {
            return self.lookup_ip(self.root, addr);
        }
    }

    /// The number of addresses with value `value` below the node at `node`,
    /// which spans `size` addresses.
    pub fn count_ips_recurse(&self, node: usize, value: i32, size: u64) -> (n: u64)
        requires
            tree_ok(self.nodes@, node as int),
        ensures
            n == count(self.nodes@, node as int, value, size as nat),
        decreases self.nodes@.len() - node,
    {
        let here = self.nodes[node];
        if here.left.is_none() && here.right.is_none() {
            if here.val == value {
                return size;
            } else {
                return 0;
            }
        }
        proof {
            lemma_count_bounded(self.nodes@, left_of(self.nodes@, node as int), value, (size / 2) as nat);
            lemma_count_bounded(self.nodes@, right_of(self.nodes@, node as int), value, (size / 2) as nat);
            assert(size >> 1 == size / 2) by (bit_vector);
        }
        return self.count_ips_recurse(here.left.unwrap(), value, size >> 1)
            + self.count_ips_recurse(here.right.unwrap(), value, size >> 1);
    }

    /// The number of addresses, of all 2^32, that have value `value`.
    pub fn count_ips(&self, value: i32) -> (n: u64)
        requires
            tree_ok(self.nodes@, self.root as int),
        ensures
            n == self.count_of(value),
            n <= ADDRESS_SPACE,
    {
        proof {
            lemma_count_bounded(self.nodes@, self.root as int, value, ADDRESS_SPACE as nat);
        }
        return self.count_ips_recurse(self.root, value, ADDRESS_SPACE);
    }

    /// The place reached from `node` by following the `len` leading bits of
    /// `addr`, or the leaf that ends the walk earlier.
    pub fn lookup_node(&self, node: usize, addr: u32, len: i64) -> (place: usize)
        requires
            tree_ok(self.nodes@, node as int),
        ensures
            place == descend(
                self.nodes@,
                node as int,
                addr,
                if len > 0 {
                    len as nat
                } else {
                    0
                },
            ),
    {
        let mut cur: usize = node;
        let mut rest: u32 = addr;
        let mut left: i64 = len;
        while left > 0
            invariant
                tree_ok(self.nodes@, cur as int),
                0 <= cur < self.nodes@.len(),
                left <= len,
                descend(
                    self.nodes@,
                    cur as int,
                    rest,
                    if left > 0 {
                        left as nat
                    } else {
                        0
                    },
                ) == descend(
                    self.nodes@,
                    node as int,
                    addr,
                    if len > 0 {
                        len as nat
                    } else {
                        0
                    },
                ),
            decreases left,
        {
            let here = self.nodes[cur];
            if here.left.is_none() && here.right.is_none() {
                return cur;
            }
            cur = if rest & 0x8000_0000 != 0 {
                here.right.unwrap()
            } else {
                here.left.unwrap()
            };
            rest = rest << 1;
            left = left - 1;
        }
        return cur;
    }

    /// Fills the radix table from the tree and sets `optimized`. Does nothing
    /// where the table is already in use.
    pub fn optimize(&mut self)
        requires
            old(self).wf(),
        ensures
            final(self).wf(),
            final(self).optimized,
            final(self).radix_filled(),
            final(self).nodes == old(self).nodes,
            final(self).root == old(self).root,
            old(self).optimized ==> *final(self) == *old(self),
    {
        if self.optimized {
            return ;
        }
        self.radix.clear();
        let mut i: u32 = 0;
        while i < 65536
            invariant
                i <= 65536,
                self.nodes == old(self).nodes,
                self.root == old(self).root,
                self.optimized == old(self).optimized,
                tree_ok(self.nodes@, self.root as int),
                self.radix@.len() == i,
                forall|j: int|
                    0 <= j < i ==> #[trigger] self.radix@[j] == descend(
                        self.nodes@,
                        self.root as int,
                        Self::radix_prefix(j),
                        16,
                    ),
            decreases 65536 - i,
        {
            assert(i << 16u32 == ((i as int) as u32) << 16u32);
            let prefix: u32 = i << (32 - RADIX_LENGTH);
            let place = self.lookup_node(self.root, prefix, 16);
            self.radix.push(place);
            i = i + 1;
        }
        self.optimized = true;
    }

    /// Paints the subnet `prefix/len` with `value` and leaves the radix
    /// table: lookups go through the tree until it is filled again.
    pub fn set(&mut self, prefix: u32, len: i32, value: i32)
        requires
            old(self).wf(),
            0 <= len <= 32,
        ensures
            final(self).wf(),
            !final(self).optimized,
            final(self).root == old(self).root,
            repainted(
                old(self).nodes@,
                final(self).nodes@,
                old(self).root as int,
                (Paint { prefix, len: len as int, value }),
            ),
            forall|a: u32| #[trigger]
                final(self).value_of(a) == if covers(prefix, len as int, a) {
                    value
                } else {
                    old(self).value_of(a)
                },
            old(self).binary() && (value == ADDR_ALLOWED || value == ADDR_DISALLOWED)
                ==> final(self).binary(),
    {
        self.optimized = false;
        set_recurse(&mut self.nodes, self.root, prefix, len, value);
    }
}

/// The count of a value is the number of addresses that have the value.
pub proof fn lemma_count_is_number_of_addresses(c: Constraint, value: i32)
    requires
        height(c.nodes@, c.root as int) <= 32,
    ensures
        c.addresses_with(value).finite(),
        c.addresses_with(value).len() == c.count_of(value),
{
    lemma_count_is_cardinality(c.nodes@, c.root as int, value, 0);
    lemma2_to64();
    assert(c.addresses_with(value) =~= matching(c.nodes@, c.root as int, value, 0)) by {
        assert forall|a: u32| aligned(a, 0) by {
            assert((a >> 0u32) << 0u32 == a) by (bit_vector);
        }
    }
}

/// Every address is counted once: in a constraint whose leaves all hold
/// `ADDR_ALLOWED` or `ADDR_DISALLOWED`, the two counts add up to 2^32.
pub proof fn lemma_count_total(c: Constraint)
    requires
        c.binary(),
        height(c.nodes@, c.root as int) <= 32,
    ensures
        c.count_of(ADDR_ALLOWED) + c.count_of(ADDR_DISALLOWED) == ADDRESS_SPACE,
{
    lemma2_to64();
    lemma_count_split(c.nodes@, c.root as int, 32);
}

} // verus!
