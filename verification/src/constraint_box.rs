//! The allow/deny prefix tree, with each node owning its two children.
//!
//! A tree stands for a function from 32-bit addresses to values: the value of
//! an address is the value of the leaf reached by following its bits, most
//! significant first.

use vstd::prelude::*;
use vstd::arithmetic::power2::{lemma2_to64, lemma_pow2_unfold, pow2};
use crate::bits::{
    aligned,
    aligned_set,
    covers,
    halves,
    lemma_aligned_count,
    lemma_covers_step,
    lemma_halves,
    lemma_shift_facts,
    painted_value,
    tail,
    top_bit,
    Paint,
};

verus! {

/// The value of an address that must not be probed.
pub const ADDR_DISALLOWED: i32 = 0;

/// The value of an address that may be probed.
pub const ADDR_ALLOWED: i32 = 1;

/// A node of the prefix tree: a leaf that holds a value, or an inner node with
/// exactly two children.
#[derive(Debug)]
pub struct TreeNode {
    pub val: i32,
    pub left: Option<Box<TreeNode>>,
    pub right: Option<Box<TreeNode>>,
}

impl TreeNode {
    /// Whether this node has no children.
    pub open spec fn leaf(&self) -> bool {
        self.left.is_none() && self.right.is_none()
    }

    /// Every node is a leaf or has two children, and no inner node has two
    /// leaf children of the same value.
    pub open spec fn well_formed(&self) -> bool
        decreases self,
    {
        if self.left.is_none() && self.right.is_none() {
            true
        } else if self.left.is_some() && self.right.is_some() {
            let l = self.left.unwrap();
            let r = self.right.unwrap();
            &&& l.well_formed()
            &&& r.well_formed()
            &&& !(l.leaf() && r.leaf() && l.val == r.val)
        } else {
            false
        }
    }

    /// The number of levels below this node.
    pub open spec fn height(&self) -> nat
        decreases self,
    {
        if self.left.is_some() && self.right.is_some() {
            let l = self.left.unwrap().height();
            let r = self.right.unwrap().height();
            if l >= r {
                l + 1
            } else {
                r + 1
            }
        } else {
            0
        }
    }

    /// The value that the tree below this node gives to `addr`, whose most
    /// significant bit decides the branch at this node.
    pub open spec fn value_at(&self, addr: u32) -> i32
        decreases self,
    {
        if self.left.is_some() && self.right.is_some() {
            if top_bit(addr) {
                self.right.unwrap().value_at(tail(addr))
            } else {
                self.left.unwrap().value_at(tail(addr))
            }
        } else {
            self.val
        }
    }

    /// The number of addresses with value `value` below this node, when the
    /// node spans `size` addresses: a leaf counts its whole span or nothing,
    /// an inner node gives each child half of its span.
    pub open spec fn count(&self, value: i32, size: nat) -> nat
        decreases self,
    {
        if self.left.is_some() && self.right.is_some() {
            self.left.unwrap().count(value, size / 2) + self.right.unwrap().count(value, size / 2)
        } else if self.val == value {
            size
        } else {
            0
        }
    }

    /// The node reached from this one by following the `n` leading bits of
    /// `addr`, or the leaf that ends the walk earlier.
    pub open spec fn descend(&self, addr: u32, n: nat) -> TreeNode
        decreases self,
    {
        if n > 0 && self.left.is_some() && self.right.is_some() {
            if top_bit(addr) {
                self.right.unwrap().descend(tail(addr), (n - 1) as nat)
            } else {
                self.left.unwrap().descend(tail(addr), (n - 1) as nat)
            }
        } else {
            *self
        }
    }

    /// Every leaf below this node holds `ADDR_ALLOWED` or `ADDR_DISALLOWED`.
    pub open spec fn binary(&self) -> bool
        decreases self,
    {
        if self.left.is_some() && self.right.is_some() {
            self.left.unwrap().binary() && self.right.unwrap().binary()
        } else {
            self.val == ADDR_ALLOWED || self.val == ADDR_DISALLOWED
        }
    }

    pub fn new(val: i32) -> (node: Self)
        ensures
            node.leaf(),
            node.val == val,
            node.well_formed(),
            node.height() == 0,
            forall|addr: u32| node.value_at(addr) == val,
    {
        TreeNode { val, left: None, right: None }
    }

    pub fn is_leaf(&self) -> (b: bool)
        ensures
            b == self.leaf(),
    {
        self.left.is_none() && self.right.is_none()
    }

    /// Drops both children; the node keeps its own value.
    pub fn convert_to_leaf(&mut self)
        ensures
            final(self).leaf(),
            final(self).val == old(self).val,
    {
        if self.is_leaf() {
            return ;
        }
        self.left = None;
        self.right = None;
    }
}

impl Clone for TreeNode {
    fn clone(&self) -> (copy: Self)
        ensures
            copy == *self,
        decreases self,
    {
        let left = match &self.left {
            Some(l) => Some(Box::new((**l).clone())),
            None => None,
        };
        let right = match &self.right {
            Some(r) => Some(Box::new((**r).clone())),
            None => None,
        };
        TreeNode { val: self.val, left, right }
    }
}

/// A tree never counts more addresses than it spans.
pub proof fn lemma_count_bounded(node: TreeNode, value: i32, size: nat)
    ensures
        node.count(value, size) <= size,
    decreases node,
{
    if node.left.is_some() && node.right.is_some() {
        lemma_count_bounded(*node.left.unwrap(), value, size / 2);
        lemma_count_bounded(*node.right.unwrap(), value, size / 2);
    }
}

/// Walking down `n` levels along `addr` and looking up what is left of `addr`
/// there gives the value that the whole tree has at `addr`.
pub proof fn lemma_descend_value(node: TreeNode, addr: u32, n: nat)
    requires
        n <= 16,
    ensures
        node.descend(addr, n).value_at(addr << (n as u32)) == node.value_at(addr),
    decreases node,
{
    if n > 0 && node.left.is_some() && node.right.is_some() {
        let m = (n - 1) as u32;
        assert((addr << 1u32) << m == addr << ((m + 1) as u32)) by (bit_vector)
            requires
                m < 16,
        ;
        if top_bit(addr) {
            lemma_descend_value(*node.right.unwrap(), tail(addr), (n - 1) as nat);
        } else {
            lemma_descend_value(*node.left.unwrap(), tail(addr), (n - 1) as nat);
        }
    } else if n == 0 {
        assert(addr << 0u32 == addr) by (bit_vector);
    }
}

/// Every node of a well-formed tree is the root of a well-formed tree.
pub proof fn lemma_descend_well_formed(node: TreeNode, addr: u32, n: nat)
    requires
        node.well_formed(),
    ensures
        node.descend(addr, n).well_formed(),
    decreases node,
{
    if n > 0 && node.left.is_some() && node.right.is_some() {
        if top_bit(addr) {
            lemma_descend_well_formed(*node.right.unwrap(), tail(addr), (n - 1) as nat);
        } else {
            lemma_descend_well_formed(*node.left.unwrap(), tail(addr), (n - 1) as nat);
        }
    }
}

/// The walk down `n` levels depends only on the `n` leading bits of the address.
pub proof fn lemma_descend_prefix(node: TreeNode, a: u32, b: u32, n: nat)
    requires
        n <= 32,
        covers(a, n as int, b),
    ensures
        node.descend(a, n) == node.descend(b, n),
    decreases node,
{
    if n > 0 && node.left.is_some() && node.right.is_some() {
        lemma_covers_step(a, n as int, b);
        if top_bit(a) {
            lemma_descend_prefix(*node.right.unwrap(), tail(a), tail(b), (n - 1) as nat);
        } else {
            lemma_descend_prefix(*node.left.unwrap(), tail(a), tail(b), (n - 1) as nat);
        }
    }
}

/// The addresses with `z` zero bits at their end to which the tree below
/// `node` gives the value `value`.
pub open spec fn matching(node: TreeNode, value: i32, z: nat) -> Set<u32> {
    Set::new(|a: u32| aligned(a, z) && node.value_at(a) == value)
}

/// The count of a tree is a number of addresses: of the `2^(32 - z)`
/// addresses that a node `z` levels above the deepest level spans, it counts
/// those that have the value.
pub proof fn lemma_count_is_cardinality(node: TreeNode, value: i32, z: nat)
    requires
        node.height() + z <= 32,
    ensures
        matching(node, value, z).finite(),
        matching(node, value, z).len() == node.count(value, pow2((32 - z) as nat)),
    decreases node,
{
    let whole = matching(node, value, z);
    if node.left.is_some() && node.right.is_some() {
        let l = *node.left.unwrap();
        let r = *node.right.unwrap();
        lemma_count_is_cardinality(l, value, z + 1);
        lemma_count_is_cardinality(r, value, z + 1);
        let low = matching(l, value, z + 1);
        let high = matching(r, value, z + 1);
        assert(halves(whole, low, high, z)) by {
            assert forall|a: u32|
                whole.contains(a) <==> aligned(a, z) && if top_bit(a) {
                    high.contains(tail(a))
                } else {
                    low.contains(tail(a))
                } by {
                lemma_shift_facts(a, z);
            }
        }
        lemma_halves(whole, low, high, z);
        lemma_pow2_unfold((32 - z) as nat);
    } else if node.val == value {
        assert(whole =~= aligned_set(z));
        lemma_aligned_count(z);
    } else {
        assert(whole =~= Set::<u32>::empty());
    }
}

/// The number of leading address bits that the radix table resolves.
pub const RADIX_LENGTH: u32 = 16;

/// The number of entries of a filled radix table.
pub const RADIX_SIZE: usize = 65536;

/// The number of IPv4 addresses.
pub const ADDRESS_SPACE: u64 = 0x1_0000_0000;

/// A prefix tree with a table that maps each 16-bit prefix to the subtree
/// reached by it. The table is only read while `optimized` is set.
pub struct Constraint {
    pub root: Box<TreeNode>,
    pub radix: Vec<Box<TreeNode>>,
    pub optimized: bool,
}

impl Constraint {
    /// The address whose 16 leading bits are `index` and whose other bits are 0.
    pub open spec fn radix_prefix(index: int) -> u32 {
        ((index as u32) << 16u32)
    }

    /// The table has one entry for each 16-bit prefix, and each entry is the
    /// subtree that the prefix leads to.
    pub open spec fn radix_filled(&self) -> bool {
        &&& self.radix@.len() == RADIX_SIZE
        &&& forall|i: int|
            0 <= i < RADIX_SIZE ==> *(#[trigger] self.radix@[i]) == self.root.descend(
                Self::radix_prefix(i),
                16,
            )
    }

    /// The tree is well formed, no deeper than an address is long, and the
    /// table agrees with it whenever `optimized` is set.
    pub open spec fn wf(&self) -> bool {
        &&& self.root.well_formed()
        &&& self.root.height() <= 32
        &&& self.optimized ==> self.radix_filled()
    }

    /// The value that the constraint gives to `addr`.
    pub open spec fn value_of(&self, addr: u32) -> i32 {
        self.root.value_at(addr)
    }

    /// Whether every leaf holds `ADDR_ALLOWED` or `ADDR_DISALLOWED`.
    pub open spec fn binary(&self) -> bool {
        self.root.binary()
    }

    /// The number of addresses, of all 2^32, that have value `value`.
    pub open spec fn count_of(&self, value: i32) -> nat {
        self.root.count(value, ADDRESS_SPACE as nat)
    }

    /// The addresses that have the value `value`.
    pub open spec fn addresses_with(&self, value: i32) -> Set<u32> {
        Set::new(|a: u32| self.value_of(a) == value)
    }

    pub fn new(root: Box<TreeNode>) -> (c: Self)
        ensures
            c.root == root,
            c.radix@.len() == 0,
            !c.optimized,
    {
        Constraint { root, radix: Vec::new(), optimized: false }
    }

    /// The value of `addr` in the tree below `node`.
    pub fn lookup_ip(&self, node: &Box<TreeNode>, addr: u32) -> (v: i32)
        requires
            node.well_formed(),
        ensures
            v == node.value_at(addr),
    {
        let mut cur: &TreeNode = &**node;
        let mut rest: u32 = addr;
        loop
            invariant
                cur.well_formed(),
                cur.value_at(rest) == node.value_at(addr),
            decreases cur.height(),
        {
            if cur.is_leaf() {
                return cur.val;
            }
            let next: &Box<TreeNode> = if rest & 0x8000_0000 != 0 {
                cur.right.as_ref().unwrap()
            } else {
                cur.left.as_ref().unwrap()
            };
            cur = &**next;
            rest = rest << 1;
        }
    }

    /// The value of `addr`, through the radix table where it is filled.
    pub fn lookup(&self, addr: u32) -> (v: i32)
        requires
            self.wf(),
        ensures
            v == self.value_of(addr),
    {
        if self.optimized {
            let index: usize = (addr >> RADIX_LENGTH) as usize;
            assert(index < 65536 && ((index as u32) << 16u32 ^ addr) >> 16u32 == 0) by (bit_vector)
                requires
                    index == addr >> 16u32,
            ;
            let node = &self.radix[index];
            proof {
                assert(covers(addr, 16, Self::radix_prefix(index as int))) by {
                    let p = Self::radix_prefix(index as int);
                    assert((p ^ addr) >> 16u32 == 0);
                }
                lemma_descend_prefix(*self.root, addr, Self::radix_prefix(index as int), 16);
                lemma_descend_value(*self.root, addr, 16);
                lemma_descend_well_formed(*self.root, addr, 16);
            }
            if node.is_leaf() {
                return node.val;
            } else {
                return self.lookup_ip(node, addr << RADIX_LENGTH);
            }
        } else {
            return self.lookup_ip(&self.root, addr);
        }
    }

    /// The number of addresses with value `value` below `node`, which spans
    /// `size` addresses.
    pub fn count_ips_recurse(&self, node: &Box<TreeNode>, value: i32, size: u64) -> (n: u64)
        requires
            node.well_formed(),
        ensures
            n == node.count(value, size as nat),
        decreases node,
    {
        if node.is_leaf() {
            if node.val == value {
                return size;
            } else {
                return 0;
            }
        }
        proof {
            lemma_count_bounded(*node.left.unwrap(), value, (size / 2) as nat);
            lemma_count_bounded(*node.right.unwrap(), value, (size / 2) as nat);
            assert(size >> 1 == size / 2) by (bit_vector);
        }
        return self.count_ips_recurse(node.left.as_ref().unwrap(), value, size >> 1)
            + self.count_ips_recurse(node.right.as_ref().unwrap(), value, size >> 1);
    }

    /// The number of addresses, of all 2^32, that have value `value`.
    pub fn count_ips(&self, value: i32) -> (n: u64)
        requires
            self.root.well_formed(),
        ensures
            n == self.count_of(value),
            n <= ADDRESS_SPACE,
    {
        proof {
            lemma_count_bounded(*self.root, value, ADDRESS_SPACE as nat);
        }
        return self.count_ips_recurse(&self.root, value, ADDRESS_SPACE);
    }

    /// The node reached from the root by following the `len` leading bits of
    /// `addr`, or the leaf that ends the walk earlier.
    pub fn lookup_node(&self, addr: u32, len: i64) -> (node: &Box<TreeNode>)
        requires
            self.root.well_formed(),
        ensures
            **node == self.root.descend(
                addr,
                if len > 0 {
                    len as nat
                } else {
                    0
                },
            ),
    {
        let mut node: &Box<TreeNode> = &self.root;
        let mut rest: u32 = addr;
        let mut left: i64 = len;
        while left > 0
            invariant
                node.well_formed(),
                left <= len,
                node.descend(
                    rest,
                    if left > 0 {
                        left as nat
                    } else {
                        0
                    },
                ) == self.root.descend(
                    addr,
                    if len > 0 {
                        len as nat
                    } else {
                        0
                    },
                ),
            decreases left,
        {
            if node.is_leaf() {
                return node;
            }
            if rest & 0x8000_0000 != 0 {
                node = node.right.as_ref().unwrap();
            } else {
                node = node.left.as_ref().unwrap();
            }
            rest = rest << 1;
            left = left - 1;
        }
        return node;
    }

    /// Fills the radix table from the tree and sets `optimized`. Does nothing
    /// where the table is already in use.
    pub fn optimize(&mut self)
        requires
            old(self).wf(),
        ensures
            final(self).wf(),
            final(self).optimized,
            final(self).radix_filled(),
            final(self).root == old(self).root,
            old(self).optimized ==> *final(self) == *old(self),
    {
        if self.optimized {
            return ;
        }
        self.radix.clear();
        let mut i: u32 = 0;
        while i < 65536
            invariant
                i <= 65536,
                self.root == old(self).root,
                self.optimized == old(self).optimized,
                self.root.well_formed(),
                self.radix@.len() == i,
                forall|j: int|
                    0 <= j < i ==> *(#[trigger] self.radix@[j]) == self.root.descend(
                        Self::radix_prefix(j),
                        16,
                    ),
            decreases 65536 - i,
        {
            assert(i << 16u32 == ((i as int) as u32) << 16u32);
            let prefix: u32 = i << (32 - RADIX_LENGTH);
            let node = self.lookup_node(prefix, 16);
            let copy: TreeNode = (**node).clone();
            self.radix.push(Box::new(copy));
            i = i + 1;
        }
        self.optimized = true;
    }

    /// Paints the subnet `prefix/len` with `value` and leaves the radix
    /// table: lookups go through the tree until it is filled again.
    pub fn set(&mut self, prefix: u32, len: i32, value: i32)
        requires
            old(self).wf(),
            0 <= len <= 32,
        ensures
            final(self).wf(),
            !final(self).optimized,
            repainted(*old(self).root, (Paint { prefix, len: len as int, value }), *final(self).root),
            forall|a: u32| #[trigger]
                final(self).value_of(a) == if covers(prefix, len as int, a) {
                    value
                } else {
                    old(self).value_of(a)
                },
            old(self).binary() && (value == ADDR_ALLOWED || value == ADDR_DISALLOWED)
                ==> final(self).binary(),
    {
        self.optimized = false;
        set_recurse(&mut self.root, prefix, len, value);
    }
}

/// `after` is `before` with the subnet of `paint` painted over: the addresses
/// it covers have its value, all others have the value they had.
pub open spec fn repainted(before: TreeNode, paint: Paint, after: TreeNode) -> bool {
    forall|a: u32| #[trigger]
        after.value_at(a) == if covers(paint.prefix, paint.len, a) {
            paint.value
        } else {
            before.value_at(a)
        }
}

/// Painter's rule: after any sequence of painting steps, each leading from
/// one tree to the next, the value of an address is that of the most recent
/// step whose prefix covers it, or the value it had at the start.
pub proof fn lemma_painter(trees: Seq<TreeNode>, paints: Seq<Paint>, addr: u32)
    requires
        trees.len() == paints.len() + 1,
        forall|i: int|
            0 <= i < paints.len() ==> repainted(#[trigger] trees[i], paints[i], trees[i + 1]),
    ensures
        trees.last().value_at(addr) == painted_value(trees[0].value_at(addr), paints, addr),
    decreases paints.len(),
{
    if paints.len() > 0 {
        let n = paints.len() as int;
        assert(repainted(trees[n - 1], paints[n - 1], trees[n]));
        assert(trees[n].value_at(addr) == if covers(paints[n - 1].prefix, paints[n - 1].len, addr) {
            paints[n - 1].value
        } else {
            trees[n - 1].value_at(addr)
        });
        let shorter = trees.drop_last();
        assert forall|i: int| 0 <= i < paints.drop_last().len() implies repainted(
            #[trigger] shorter[i],
            paints.drop_last()[i],
            shorter[i + 1],
        ) by {
            assert(repainted(trees[i], paints[i], trees[i + 1]));
        }
        lemma_painter(shorter, paints.drop_last(), addr);
    }
}

/// A tree of height at most `k` whose leaves all hold one of the two values
/// splits a span of `2^k` addresses between them.
pub proof fn lemma_count_split(node: TreeNode, k: nat)
    requires
        node.binary(),
        node.height() <= k,
    ensures
        node.count(ADDR_ALLOWED, pow2(k)) + node.count(ADDR_DISALLOWED, pow2(k)) == pow2(k),
    decreases node,
{
    if node.left.is_some() && node.right.is_some() {
        lemma_pow2_unfold(k);
        assert(pow2(k) / 2 == pow2((k - 1) as nat));
        lemma_count_split(*node.left.unwrap(), (k - 1) as nat);
        lemma_count_split(*node.right.unwrap(), (k - 1) as nat);
    }
}

/// The count of a value is the number of addresses that have the value.
pub proof fn lemma_count_is_number_of_addresses(c: Constraint, value: i32)
    requires
        c.root.height() <= 32,
    ensures
        c.addresses_with(value).finite(),
        c.addresses_with(value).len() == c.count_of(value),
{
    lemma_count_is_cardinality(*c.root, value, 0);
    lemma2_to64();
    assert(c.addresses_with(value) =~= matching(*c.root, value, 0)) by {
        assert forall|a: u32| aligned(a, 0) by {
            assert((a >> 0u32) << 0u32 == a) by (bit_vector);
        }
    }
}

/// Every address is counted once: in a constraint whose leaves all hold
/// `ADDR_ALLOWED` or `ADDR_DISALLOWED`, the two counts add up to 2^32.
pub proof fn lemma_count_total(c: Constraint)
    requires
        c.binary(),
        c.root.height() <= 32,
    ensures
        c.count_of(ADDR_ALLOWED) + c.count_of(ADDR_DISALLOWED) == ADDRESS_SPACE,
{
    lemma2_to64();
    lemma_count_split(*c.root, 32);
}

/// Paints the subnet `prefix/len` below `node` with `value`: every address that
/// the prefix covers gets `value`, every other address keeps what it had.
pub fn set_recurse(node: &mut Box<TreeNode>, prefix: u32, len: i32, value: i32)
    requires
        old(node).well_formed(),
        0 <= len <= 32,
    ensures
        final(node).well_formed(),
        repainted(**old(node), (Paint { prefix, len: len as int, value }), **final(node)),
        final(node).height() <= old(node).height() || final(node).height() <= len,
        old(node).binary() && (value == ADDR_ALLOWED || value == ADDR_DISALLOWED)
            ==> final(node).binary(),
    decreases len,
{
    if len == 0 {
        if !node.is_leaf() {
            node.convert_to_leaf();
        }
        node.val = value;
        return ;
    }
    if node.is_leaf() {
        if node.val == value {
            return ;
        }
        let l = TreeNode::new(node.val);
        let r = TreeNode::new(node.val);
        node.left = Some(Box::new(l));
        node.right = Some(Box::new(r));
        assert(node.left.unwrap() == l);
        assert(node.right.unwrap() == r);
        assert(node.val == old(node).val);
        assert(old(node).leaf());
    }
    let ghost split = **node;
    assert forall|a: u32| #[trigger] split.value_at(a) == old(node).value_at(a) by {
        if old(node).leaf() {
            assert(split.left.unwrap().value_at(tail(a)) == old(node).val);
            assert(split.right.unwrap().value_at(tail(a)) == old(node).val);
            assert(old(node).value_at(a) == old(node).val);
        }
    }
    proof {
        assert forall|a: u32|
            covers(prefix, len as int, a) <==> (top_bit(prefix) == top_bit(a) && covers(
                tail(prefix),
                len - 1,
                tail(a),
            )) by {
            lemma_covers_step(prefix, len as int, a);
        }
    }
    if prefix & 0x8000_0000 != 0 {
        if let Some(ref mut right) = node.right {
            set_recurse(right, prefix << 1, len - 1, value);
        }
    } else {
        if let Some(ref mut left) = node.left {
            set_recurse(left, prefix << 1, len - 1, value);
        }
    }
    let ghost painted = **node;
    assert forall|a: u32| #[trigger]
        painted.value_at(a) == if covers(prefix, len as int, a) {
            value
        } else {
            old(node).value_at(a)
        } by {
        assert(split.value_at(a) == old(node).value_at(a));
        if top_bit(a) {
            assert(painted.value_at(a) == painted.right.unwrap().value_at(tail(a)));
            assert(split.value_at(a) == split.right.unwrap().value_at(tail(a)));
        } else {
            assert(painted.value_at(a) == painted.left.unwrap().value_at(tail(a)));
            assert(split.value_at(a) == split.left.unwrap().value_at(tail(a)));
        }
    }
    if node.left.as_ref().unwrap().is_leaf() && node.right.as_ref().unwrap().is_leaf()
        && node.left.as_ref().unwrap().val == node.right.as_ref().unwrap().val {
        node.val = node.left.as_ref().unwrap().val;
        node.convert_to_leaf();
        assert forall|a: u32| #[trigger] node.value_at(a) == painted.value_at(a) by {
            assert(painted.left.unwrap().value_at(tail(a)) == node.val);
            assert(painted.right.unwrap().value_at(tail(a)) == node.val);
        }
    }
}

} // verus!
