//! Facts about 32-bit address prefixes, shared by both prefix trees.

use vstd::prelude::*;
use vstd::arithmetic::power2::{lemma2_to64, lemma_pow2_unfold, pow2};
use vstd::relations::injective_on;
use vstd::set_lib::{lemma_map_size, lemma_set_disjoint_lens};

verus! {

/// The most significant bit of `addr`: the branch taken at the current level.
pub open spec fn top_bit(addr: u32) -> bool {
    addr & 0x8000_0000u32 != 0
}

/// `addr` with its most significant bit dropped: what is left to decide below
/// the current level.
pub open spec fn tail(addr: u32) -> u32 {
    addr << 1u32
}

/// Whether the `len` leading bits of `addr` equal those of `prefix`, that is
/// whether `addr` lies in the subnet `prefix/len`.
pub open spec fn covers(prefix: u32, len: int, addr: u32) -> bool {
    len <= 0 || (len >= 32 && addr == prefix) || (0 < len < 32 && (addr ^ prefix) >> ((32
        - len) as u32) == 0)
}

/// One level of `covers`: a prefix of positive length covers an address when
/// their leading bits agree and the rest of the prefix covers the rest of the
/// address.
pub proof fn lemma_covers_step(prefix: u32, len: int, addr: u32)
    requires
        0 < len <= 32,
    ensures
        covers(prefix, len, addr) <==> (top_bit(prefix) == top_bit(addr) && covers(
            tail(prefix),
            len - 1,
            tail(addr),
        )),
{
    let n: u32 = len as u32;
    if len == 1 {
        assert(((addr ^ prefix) >> 31u32 == 0) <==> ((prefix & 0x8000_0000u32 != 0) == (addr
            & 0x8000_0000u32 != 0))) by (bit_vector);
    } else if len == 32 {
        assert((addr == prefix) <==> (((prefix & 0x8000_0000u32 != 0) == (addr & 0x8000_0000u32
            != 0)) && ((addr << 1u32) ^ (prefix << 1u32)) >> 1u32 == 0)) by (bit_vector);
    } else {
        let m: u32 = (32 - len) as u32;
        assert(((addr ^ prefix) >> m == 0) <==> (((prefix & 0x8000_0000u32 != 0) == (addr
            & 0x8000_0000u32 != 0)) && ((addr << 1u32) ^ (prefix << 1u32)) >> ((m + 1) as u32)
            == 0)) by (bit_vector)
            requires
                1 <= m < 31,
        ;
    }
}

/// One painting step: a prefix, its length and the value painted.
pub struct Paint {
    pub prefix: u32,
    pub len: int,
    pub value: i32,
}

/// The value of `addr` after the steps `paints` on a ground of value `ground`:
/// the value of the last step that covers `addr`, or `ground` if none does.
pub open spec fn painted_value(ground: i32, paints: Seq<Paint>, addr: u32) -> i32
    decreases paints.len(),
{
    if paints.len() == 0 {
        ground
    } else if covers(paints.last().prefix, paints.last().len, addr) {
        paints.last().value
    } else {
        painted_value(ground, paints.drop_last(), addr)
    }
}

/// Whether the `z` lowest bits of `a` are zero.
pub open spec fn aligned(a: u32, z: nat) -> bool {
    if z >= 32 {
        a == 0
    } else {
        (a >> (z as u32)) << (z as u32) == a
    }
}

/// The addresses whose `z` lowest bits are zero.
pub open spec fn aligned_set(z: nat) -> Set<u32> {
    Set::new(|a: u32| aligned(a, z))
}

/// Whether `whole` holds the addresses with `z` zero bits at their end whose
/// rest, after the leading bit, is in `low` where the leading bit is 0 and in
/// `high` where it is 1.
pub open spec fn halves(whole: Set<u32>, low: Set<u32>, high: Set<u32>, z: nat) -> bool {
    forall|a: u32|
        whole.contains(a) <==> aligned(a, z) && if top_bit(a) {
            high.contains(tail(a))
        } else {
            low.contains(tail(a))
        }
}

/// How dropping the leading bit and putting it back act on addresses with
/// zero bits at their end.
pub proof fn lemma_shift_facts(c: u32, z: nat)
    requires
        z < 32,
    ensures
        aligned(c, z + 1) ==> {
            &&& aligned(c >> 1u32, z)
            &&& aligned((c >> 1u32) | 0x8000_0000u32, z)
            &&& tail(c >> 1u32) == c
            &&& tail((c >> 1u32) | 0x8000_0000u32) == c
            &&& !top_bit(c >> 1u32)
            &&& top_bit((c >> 1u32) | 0x8000_0000u32)
        },
        aligned(c, z) ==> {
            &&& aligned(tail(c), z + 1)
            &&& (top_bit(c) ==> c == (tail(c) >> 1u32) | 0x8000_0000u32)
            &&& (!top_bit(c) ==> c == tail(c) >> 1u32)
        },
{
    let s = z as u32;
    if z == 31 {
        assert(((c >> 31u32) << 31u32 == c) ==> (c << 1u32 == 0)) by (bit_vector);
        assert(((0u32 >> 1u32) >> 31u32) << 31u32 == (0u32 >> 1u32)) by (bit_vector);
        assert((((0u32 >> 1u32) | 0x8000_0000u32) >> 31u32) << 31u32 == ((0u32 >> 1u32)
            | 0x8000_0000u32)) by (bit_vector);
        assert((0u32 >> 1u32) << 1u32 == 0 && ((0u32 >> 1u32) | 0x8000_0000u32) << 1u32 == 0
            && (0u32 >> 1u32) & 0x8000_0000u32 == 0 && ((0u32 >> 1u32) | 0x8000_0000u32)
            & 0x8000_0000u32 != 0) by (bit_vector);
        assert(((c >> 31u32) << 31u32 == c) ==> ((c & 0x8000_0000u32 != 0 ==> c == ((c << 1u32)
            >> 1u32) | 0x8000_0000u32) && (c & 0x8000_0000u32 == 0 ==> c == (c << 1u32)
            >> 1u32))) by (bit_vector);
    } else {
        let t = (z + 1) as u32;
        assert(((c >> t) << t == c) ==> ((((c >> 1u32) >> s) << s == (c >> 1u32)) && ((((c >> 1u32)
            | 0x8000_0000u32) >> s) << s == ((c >> 1u32) | 0x8000_0000u32)) && ((c >> 1u32)
            << 1u32 == c) && (((c >> 1u32) | 0x8000_0000u32) << 1u32 == c) && ((c >> 1u32)
            & 0x8000_0000u32 == 0) && (((c >> 1u32) | 0x8000_0000u32) & 0x8000_0000u32 != 0)))
            by (bit_vector)
            requires
                s < 31,
                t == s + 1,
        ;
        assert(((c >> s) << s == c) ==> ((((c << 1u32) >> t) << t == (c << 1u32)) && (c
            & 0x8000_0000u32 != 0 ==> c == ((c << 1u32) >> 1u32) | 0x8000_0000u32) && (c
            & 0x8000_0000u32 == 0 ==> c == (c << 1u32) >> 1u32))) by (bit_vector)
            requires
                s < 31,
                t == s + 1,
        ;
    }
}

/// A set that is put together from two halves has as many elements as both
/// halves together.
pub proof fn lemma_halves(whole: Set<u32>, low: Set<u32>, high: Set<u32>, z: nat)
    requires
        z < 32,
        halves(whole, low, high, z),
        low.finite(),
        high.finite(),
        forall|a: u32| low.contains(a) ==> aligned(a, z + 1),
        forall|a: u32| high.contains(a) ==> aligned(a, z + 1),
    ensures
        whole.finite(),
        whole.len() == low.len() + high.len(),
{
    let f0 = |c: u32| c >> 1u32;
    let f1 = |c: u32| (c >> 1u32) | 0x8000_0000u32;
    let w0 = low.map(f0);
    let w1 = high.map(f1);
    assert(injective_on(f0, low)) by {
        assert forall|x: u32, y: u32|
            low.contains(x) && low.contains(y) && #[trigger] f0(x) == #[trigger] f0(y) implies x
            == y by {
            lemma_shift_facts(x, z);
            lemma_shift_facts(y, z);
        }
    }
    assert(injective_on(f1, high)) by {
        assert forall|x: u32, y: u32|
            high.contains(x) && high.contains(y) && #[trigger] f1(x) == #[trigger] f1(y) implies x
            == y by {
            lemma_shift_facts(x, z);
            lemma_shift_facts(y, z);
        }
    }
    lemma_map_size(low, w0, f0);
    lemma_map_size(high, w1, f1);
    assert(w0.disjoint(w1)) by {
        assert forall|a: u32| w0.contains(a) implies !w1.contains(a) by {
            let c = choose|c: u32| low.contains(c) && a == f0(c);
            lemma_shift_facts(c, z);
            if w1.contains(a) {
                let d = choose|d: u32| high.contains(d) && a == f1(d);
                lemma_shift_facts(d, z);
            }
        }
    }
    assert(whole =~= w0 + w1) by {
        assert forall|a: u32| whole.contains(a) <==> (w0 + w1).contains(a) by {
            lemma_shift_facts(a, z);
            if whole.contains(a) {
                if top_bit(a) {
                    assert(high.contains(tail(a)) && a == f1(tail(a)));
                    assert(w1.contains(a));
                } else {
                    assert(low.contains(tail(a)) && a == f0(tail(a)));
                    assert(w0.contains(a));
                }
            }
            if w0.contains(a) {
                let c = choose|c: u32| low.contains(c) && a == f0(c);
                lemma_shift_facts(c, z);
            }
            if w1.contains(a) {
                let d = choose|d: u32| high.contains(d) && a == f1(d);
                lemma_shift_facts(d, z);
            }
        }
    }
    lemma_set_disjoint_lens(w0, w1);
}

/// There are `2^(32 - z)` addresses whose `z` lowest bits are zero.
pub proof fn lemma_aligned_count(z: nat)
    requires
        z <= 32,
    ensures
        aligned_set(z).finite(),
        aligned_set(z).len() == pow2((32 - z) as nat),
    decreases 32 - z,
{
    if z == 32 {
        assert(aligned_set(z) =~= set![0u32]);
        lemma2_to64();
    } else {
        lemma_aligned_count(z + 1);
        let whole = aligned_set(z);
        let half = aligned_set(z + 1);
        assert(halves(whole, half, half, z)) by {
            assert forall|a: u32|
                whole.contains(a) <==> aligned(a, z) && if top_bit(a) {
                    half.contains(tail(a))
                } else {
                    half.contains(tail(a))
                } by {
                lemma_shift_facts(a, z);
            }
        }
        lemma_halves(whole, half, half, z);
        lemma_pow2_unfold((32 - z) as nat);
    }
}

} // verus!
