//! The address permutation: iterated multiplication in the multiplicative
//! group modulo the smallest prime above 2^32.

use vstd::prelude::*;
use vstd::arithmetic::div_mod::{lemma_mul_mod_noop_general, lemma_small_mod};
use vstd::arithmetic::mul::lemma_mul_is_associative;
use vstd::arithmetic::power::{
    lemma1_pow,
    lemma_pow1,
    lemma_pow_adds,
    lemma_pow_distributes,
    lemma_pow_mod_noop,
    pow,
};
use vstd::set_lib::{lemma_int_range, lemma_len_subset, set_int_range};
use crate::aesrand::AesRand;
use crate::coverage::lemma_all_invertible;

verus! {

/// The modulus: the smallest prime greater than 2^32.
pub const PRIME: u64 = 4294967311;

/// A generator of the multiplicative group modulo `PRIME`.
pub const KNOWN_GENERATOR: u64 = 3;

/// The inverse of `KNOWN_GENERATOR` modulo `PRIME`.
pub const KNOWN_GENERATOR_INVERSE: u64 = 2863311541;

/// The first number that is not an IPv4 address.
pub const ADDRESS_LIMIT: u64 = 0x1_0000_0000;

/// The largest candidate exponent that the search for a generator reaches.
pub const LAST_CANDIDATE: u64 = 65537;

/// The prime factors of `PRIME - 1`.
pub open spec fn prime_factors() -> Seq<u64> {
    seq![2u64, 3u64, 5u64, 131u64, 364289u64]
}

/// Whether the candidate `k` and the factor `f` rule each other out: they are
/// equal, or one divides the other.
pub open spec fn related(k: u64, f: u64) -> bool {
    f == k || (k != 0 && f > k && f % k == 0) || (f < k && k % f == 0)
}

/// Whether `k` passes as an exponent: it is not zero and is related to no
/// prime factor of `PRIME - 1`.
pub open spec fn accepted(k: u64) -> bool {
    k != 0 && forall|i: int| 0 <= i < prime_factors().len() ==> !related(k, #[trigger] prime_factors()[i])
}

/// The power of the known generator with exponent `k`, modulo `PRIME`.
pub open spec fn generator_of(k: nat) -> nat {
    (pow(KNOWN_GENERATOR as int, k) % (PRIME as int)) as nat
}

/// Whether `k` is an accepted exponent whose power is an IPv4 address.
pub open spec fn usable(k: u64) -> bool {
    accepted(k) && generator_of(k as nat) < ADDRESS_LIMIT
}

/// The factor at position `i`.
fn factor(i: usize) -> (f: u64)
    requires
        i < 5,
    ensures
        f == prime_factors()[i as int],
{
    if i == 0 {
        2
    } else if i == 1 {
        3
    } else if i == 2 {
        5
    } else if i == 3 {
        131
    } else {
        364289
    }
}

/// Whether `check` passes as an exponent for the known generator.
pub fn check_coprime(check: u64) -> (ok: bool)
    ensures
        ok == accepted(check),
{
    if check == 0 {
        return false;
    }
    let mut i: usize = 0;
    while i < 5
        invariant
            i <= 5,
            check != 0,
            forall|j: int| 0 <= j < i ==> !related(check, #[trigger] prime_factors()[j]),
        decreases 5 - i,
    {
        let f = factor(i);
        if f > check && (f % check == 0) {
            return false;
        } else if f < check && (check % f == 0) {
            return false;
        } else if f == check {
            return false;
        }
        i = i + 1;
    }
    true
}

/// Calls `BigInt::modpow` of the `num` crate on three non-negative numbers:
/// `base` to the power `exp`, reduced modulo `modulus`. The crate documents
/// the result as `(base ^ exp) mod modulus`, in `[0, modulus)`, and a panic
/// for a zero modulus.
#[verifier::external_body]
fn modpow(base: u64, exp: u64, modulus: u64) -> (r: u64)
    requires
        modulus > 0,
    ensures
        r == pow(base as int, exp as nat) % (modulus as int),
{
    let result = num::BigInt::from(base).modpow(
        &num::BigInt::from(exp),
        &num::BigInt::from(modulus),
    );
    u64::try_from(result).unwrap()
}

/// Squaring a power doubles its exponent, also modulo `PRIME`.
proof fn lemma_square_step(e: nat, r: nat, square: nat)
    requires
        generator_of(e) == r,
        (r * r) % (PRIME as nat) == square,
    ensures
        generator_of(2 * e) == square,
{
    let b = KNOWN_GENERATOR as int;
    let m = PRIME as int;
    lemma_pow_adds(b, e, e);
    lemma_mul_mod_noop_general(pow(b, e), pow(b, e), m);
}

/// The last candidate of the search is usable: it is related to no factor,
/// and its power is below 2^32.
pub proof fn lemma_last_candidate_usable()
    ensures
        usable(LAST_CANDIDATE),
        generator_of(LAST_CANDIDATE as nat) == 2843899199,
{
    let b = KNOWN_GENERATOR as int;
    let m = PRIME as int;
    lemma_pow1(b);
    assert(generator_of(1) == 3);
    lemma_square_step(1, 3, 9);
    lemma_square_step(2, 9, 81);
    lemma_square_step(4, 81, 6561);
    lemma_square_step(8, 6561, 43046721);
    lemma_square_step(16, 43046721, 3787161312);
    lemma_square_step(32, 3787161312, 2960817548);
    lemma_square_step(64, 2960817548, 1176516725);
    lemma_square_step(128, 1176516725, 93247894);
    lemma_square_step(256, 93247894, 4119348425);
    lemma_square_step(512, 4119348425, 363315125);
    lemma_square_step(1024, 363315125, 1144738664);
    lemma_square_step(2048, 1144738664, 3159559037);
    lemma_square_step(4096, 3159559037, 3984249440);
    lemma_square_step(8192, 3984249440, 132383238);
    lemma_square_step(16384, 132383238, 3943573603);
    lemma_square_step(32768, 3943573603, 2379622170);
    assert(generator_of(65536) == 2379622170);
    lemma_pow_adds(b, 65536, 1);
    lemma_mul_mod_noop_general(pow(b, 65536), pow(b, 1), m);
    assert((2379622170int * 3) % m == 2843899199);
    assert(prime_factors().len() == 5);
    assert forall|i: int| 0 <= i < prime_factors().len() implies !related(
        LAST_CANDIDATE,
        #[trigger] prime_factors()[i],
    ) by {
        assert(prime_factors()[0] == 2 && prime_factors()[1] == 3 && prime_factors()[2] == 5
            && prime_factors()[3] == 131 && prime_factors()[4] == 364289);
        assert(65537u64 % 2 == 1 && 65537u64 % 3 == 2 && 65537u64 % 5 == 2 && 65537u64 % 131
            == 37 && 364289u64 % 65537 == 36604);
        assert(i == 0 || i == 1 || i == 2 || i == 3 || i == 4);
    }
}

/// The generator that the search from `start` finds: the power of the first
/// usable exponent at or after `start`.
pub open spec fn found_from(start: u64, g: u64) -> bool {
    exists|k: u64|
        {
            &&& start <= k <= LAST_CANDIDATE
            &&& #[trigger] usable(k)
            &&& g == generator_of(k as nat)
            &&& forall|j: u64| start <= j < k ==> !#[trigger] usable(j)
        }
}

/// Whether `g` is a power of the known generator with an accepted exponent.
pub open spec fn is_found(g: nat) -> bool {
    exists|k: u64| #[trigger] accepted(k) && g == generator_of(k as nat)
}

/// Whether `k` is the first accepted exponent at or after `start`.
pub open spec fn first_accepted(start: u64, k: u64) -> bool {
    &&& start <= k
    &&& accepted(k)
    &&& forall|j: u64| start <= j < k ==> !#[trigger] accepted(j)
}

/// The first accepted exponent at or after `start`.
pub open spec fn candidate_of(start: u64) -> u64 {
    choose|k: u64| first_accepted(start, k)
}

/// There is one first accepted exponent at or after a start.
pub proof fn lemma_candidate_unique(start: u64, k: u64)
    requires
        first_accepted(start, k),
    ensures
        candidate_of(start) == k,
{
    let other = candidate_of(start);
    assert(first_accepted(start, other));
    if other < k {
        assert(!accepted(other));
    } else if k < other {
        assert(!accepted(k));
    }
}

/// The power that a drawn word gives: that of the first accepted exponent at
/// or after its low 16 bits.
pub open spec fn power_drawn(word: u128) -> nat {
    generator_of(candidate_of(low_bits(word)) as nat)
}

/// The counter of a word stream after one more word.
pub open spec fn next_counter(counter: u128) -> u128 {
    if counter == u128::MAX {
        0u128
    } else {
        (counter + 1) as u128
    }
}

/// The generator that at most `draws` draws give, from the word at `counter`
/// on: the power of the first draw that is an IPv4 address, or the power of
/// the last candidate of the search where no draw gives one.
pub open spec fn generator_drawn(key: Seq<u8>, counter: u128, draws: nat) -> nat
    decreases draws,
{
    if draws == 0 {
        generator_of(LAST_CANDIDATE as nat)
    } else if power_drawn(AesRand::word_at(key, counter)) < ADDRESS_LIMIT {
        power_drawn(AesRand::word_at(key, counter))
    } else {
        generator_drawn(key, next_counter(counter), (draws - 1) as nat)
    }
}

/// The counter of the word stream after those draws.
pub open spec fn counter_drawn(key: Seq<u8>, counter: u128, draws: nat) -> u128
    decreases draws,
{
    if draws == 0 {
        counter
    } else if power_drawn(AesRand::word_at(key, counter)) < ADDRESS_LIMIT {
        next_counter(counter)
    } else {
        counter_drawn(key, next_counter(counter), (draws - 1) as nat)
    }
}

/// The first state that a drawn word gives: its low 16 bits, or 1 where they
/// are zero.
pub open spec fn state_drawn(word: u128) -> nat {
    if low_bits(word) == 0 {
        1
    } else {
        low_bits(word) as nat
    }
}

/// The number of draws after which `Cyclic::new` stops drawing.
pub const MAX_DRAWS: u32 = 16;

/// Goes upward from `start` to the first accepted exponent.
pub fn next_candidate(start: u64) -> (k: u64)
    requires
        start <= LAST_CANDIDATE,
    ensures
        first_accepted(start, k),
        k <= LAST_CANDIDATE,
{
    let mut candidate: u64 = start;
    while !check_coprime(candidate)
        invariant
            start <= candidate <= LAST_CANDIDATE,
            forall|j: u64| start <= j < candidate ==> !#[trigger] accepted(j),
        decreases LAST_CANDIDATE - candidate,
    {
        proof {
            lemma_last_candidate_usable();
        }
        candidate = candidate + 1;
    }
    candidate
}

/// Searches upward from `start` for a usable exponent and returns its power.
pub fn generator_from(start: u64) -> (g: u64)
    requires
        start <= LAST_CANDIDATE,
    ensures
        found_from(start, g),
        1 <= g < ADDRESS_LIMIT,
        has_inverse(g as nat),
        is_found(g as nat),
{
    let mut candidate: u64 = start;
    loop
        invariant
            start <= candidate <= LAST_CANDIDATE,
            forall|j: u64| start <= j < candidate ==> !#[trigger] usable(j),
        decreases LAST_CANDIDATE - candidate,
    {
        if check_coprime(candidate) {
            let g = modpow(KNOWN_GENERATOR, candidate, PRIME);
            if g < ADDRESS_LIMIT {
                proof {
                    assert(usable(candidate));
                    lemma_generator_invertible(candidate as nat);
                }
                return g;
            }
        }
        proof {
            lemma_last_candidate_usable();
        }
        candidate = candidate + 1;
    }
}

/// The low 16 bits of `word`.
pub open spec fn low_bits(word: u128) -> u64 {
    (word & 0xFFFF) as u64
}

/// Draws a starting exponent, the low 16 bits of the next word, goes upward
/// to the first accepted exponent and returns its power. The power may be
/// 2^32 or more, and then is no generator for the walk.
pub fn find_generator(aes: &mut AesRand) -> (g: u64)
    ensures
        g == power_drawn(AesRand::word_at(old(aes).key(), old(aes).counter())),
        1 <= g < PRIME,
        is_found(g as nat),
        final(aes).key() == old(aes).key(),
        final(aes).counter() == next_counter(old(aes).counter()),
{
    let word = aes.get_word();
    let low: u128 = word & 0xFFFF;
    assert(low <= 0xFFFF) by (bit_vector)
        requires
            low == word & 0xFFFF,
    ;
    let candidate = next_candidate(low as u64);
    proof {
        lemma_generator_invertible(candidate as nat);
        lemma_candidate_unique(low as u64, candidate);
    }
    modpow(KNOWN_GENERATOR, candidate, PRIME)
}

/// Whether some number multiplies `g` to 1 modulo `PRIME`.
pub open spec fn has_inverse(g: nat) -> bool {
    exists|h: nat| #[trigger] inverts(g, h)
}

/// Whether `h` multiplies `g` to 1 modulo `PRIME`.
pub open spec fn inverts(g: nat, h: nat) -> bool {
    (g * h) % (PRIME as nat) == 1
}

/// Every power of the known generator has an inverse modulo `PRIME`, the same
/// power of the generator's inverse, and so is not zero.
pub proof fn lemma_generator_invertible(k: nat)
    ensures
        has_inverse(generator_of(k)),
        generator_of(k) != 0,
{
    let b = KNOWN_GENERATOR as int;
    let c = KNOWN_GENERATOR_INVERSE as int;
    let m = PRIME as int;
    let h = (pow(c, k) % m) as nat;
    lemma_pow_distributes(b, c, k);
    assert(b * c == 2 * m + 1);
    lemma_pow_mod_noop(b * c, k, m);
    assert((b * c) % m == 1);
    lemma1_pow(k);
    lemma_small_mod(1, PRIME as nat);
    assert(pow(b * c, k) % m == 1);
    lemma_mul_mod_noop_general(pow(b, k), pow(c, k), m);
    assert(inverts(generator_of(k), h));
    if generator_of(k) == 0 {
        assert(0 * h == 0);
    }
}

/// The state reached from `c` by `n` multiplications by `g` modulo `PRIME`.
pub open spec fn walk(c: nat, g: nat, n: nat) -> nat
    decreases n,
{
    if n == 0 {
        c
    } else {
        (walk(c, g, (n - 1) as nat) * g) % (PRIME as nat)
    }
}

/// Whether the walk from `c` first comes below 2^32 after `n` steps, at `r`.
pub open spec fn next_address(c: nat, g: nat, n: nat, r: nat) -> bool {
    &&& n >= 1
    &&& walk(c, g, n) == r
    &&& r < ADDRESS_LIMIT
    &&& forall|m: nat| 1 <= m < n ==> #[trigger] walk(c, g, m) >= ADDRESS_LIMIT
}

/// Multiplication by an invertible `g` modulo `PRIME` maps different residues
/// to different residues.
pub proof fn lemma_step_injective(x: nat, y: nat, g: nat)
    requires
        has_inverse(g),
        x < PRIME,
        y < PRIME,
        (x * g) % (PRIME as nat) == (y * g) % (PRIME as nat),
    ensures
        x == y,
{
    let m = PRIME as int;
    let h = choose|h: nat| #[trigger] inverts(g, h);
    assert(inverts(g, h));
    lemma_mul_mod_noop_general((x * g) as int, h as int, m);
    lemma_mul_mod_noop_general((y * g) as int, h as int, m);
    lemma_mul_is_associative(x as int, g as int, h as int);
    lemma_mul_is_associative(y as int, g as int, h as int);
    lemma_mul_mod_noop_general(x as int, (g * h) as int, m);
    lemma_mul_mod_noop_general(y as int, (g * h) as int, m);
    assert((x * 1) % (PRIME as nat) == x) by {
        lemma_small_mod(x, PRIME as nat);
    }
    assert((y * 1) % (PRIME as nat) == y) by {
        lemma_small_mod(y, PRIME as nat);
    }
}

/// Every state of a walk that starts below `PRIME` is below `PRIME`.
pub proof fn lemma_walk_bounded(c: nat, g: nat, n: nat)
    requires
        c < PRIME,
    ensures
        walk(c, g, n) < PRIME,
    decreases n,
{
    if n > 0 {
        lemma_walk_bounded(c, g, (n - 1) as nat);
    }
}

/// A walk that starts at a nonzero residue never reaches zero.
pub proof fn lemma_walk_nonzero(c: nat, g: nat, n: nat)
    requires
        has_inverse(g),
        0 < c < PRIME,
    ensures
        walk(c, g, n) != 0,
    decreases n,
{
    if n > 0 {
        lemma_walk_nonzero(c, g, (n - 1) as nat);
        lemma_walk_bounded(c, g, (n - 1) as nat);
        if walk(c, g, n) == 0 {
            assert((0 * g) % (PRIME as nat) == 0);
            lemma_step_injective(walk(c, g, (n - 1) as nat), 0, g);
        }
    }
}

/// A walk repeats a state only by coming back to its start: if the states
/// after `i` and after `j` steps are equal, the state after `j - i` steps is
/// the start. So the addresses given out before the walk first returns to its
/// start are all different.
pub proof fn lemma_walk_repeats_at_start(c: nat, g: nat, i: nat, j: nat)
    requires
        has_inverse(g),
        c < PRIME,
        i <= j,
        walk(c, g, i) == walk(c, g, j),
    ensures
        walk(c, g, (j - i) as nat) == c,
    decreases i,
{
    if i > 0 {
        lemma_walk_bounded(c, g, (i - 1) as nat);
        lemma_walk_bounded(c, g, (j - 1) as nat);
        lemma_step_injective(walk(c, g, (i - 1) as nat), walk(c, g, (j - 1) as nat), g);
        lemma_walk_repeats_at_start(c, g, (i - 1) as nat, (j - 1) as nat);
    }
}

/// Walking `a` steps and then `b` steps is walking `a + b` steps.
pub proof fn lemma_walk_adds(c: nat, g: nat, a: nat, b: nat)
    ensures
        walk(c, g, a + b) == walk(walk(c, g, a), g, b),
    decreases b,
{
    if b > 0 {
        lemma_walk_adds(c, g, a, (b - 1) as nat);
        assert(a + b - 1 == a + (b - 1) as nat);
    }
}

/// The states of the first `k` steps of a walk that has not repeated a state
/// so far: `k` different residues.
pub proof fn lemma_distinct_states(c: nat, g: nat, k: nat) -> (states: Set<int>)
    requires
        c < PRIME,
        forall|i: nat, j: nat| i < j < k ==> walk(c, g, i) != walk(c, g, j),
    ensures
        states.finite(),
        states.len() == k,
        states.subset_of(set_int_range(0, PRIME as int)),
        forall|m: nat| m < k ==> states.contains(#[trigger] walk(c, g, m) as int),
        forall|x: int| states.contains(x) ==> exists|m: nat| m < k && #[trigger] walk(c, g, m) == x,
    decreases k,
{
    if k == 0 {
        Set::empty()
    } else {
        let before = lemma_distinct_states(c, g, (k - 1) as nat);
        let last = walk(c, g, (k - 1) as nat) as int;
        lemma_walk_bounded(c, g, (k - 1) as nat);
        if before.contains(last) {
            let m = choose|m: nat| m < k - 1 && #[trigger] walk(c, g, m) == last;
            assert(walk(c, g, m) != walk(c, g, (k - 1) as nat));
        }
        let states = before.insert(last);
        assert forall|x: int| states.contains(x) implies exists|m: nat|
            m < k && #[trigger] walk(c, g, m) == x by {
            if x == last {
                assert(walk(c, g, (k - 1) as nat) == x);
            } else {
                let m = choose|m: nat| m < k - 1 && #[trigger] walk(c, g, m) == x;
                assert(m < k && walk(c, g, m) == x);
            }
        }
        states
    }
}

/// Every walk comes back to its start: after at least one and at most
/// `PRIME` steps the state is the first state again.
pub proof fn lemma_walk_returns(c: nat, g: nat)
    requires
        has_inverse(g),
        c < PRIME,
    ensures
        exists|n: nat| 1 <= n <= PRIME && #[trigger] walk(c, g, n) == c,
{
    if !exists|n: nat| 1 <= n <= PRIME && #[trigger] walk(c, g, n) == c {
        let k = (PRIME + 1) as nat;
        assert forall|i: nat, j: nat| i < j < k implies walk(c, g, i) != walk(c, g, j) by {
            if walk(c, g, i) == walk(c, g, j) {
                lemma_walk_repeats_at_start(c, g, i, j);
                let n = (j - i) as nat;
                assert(1 <= n <= PRIME && walk(c, g, n) == c);
            }
        }
        let states = lemma_distinct_states(c, g, k);
        lemma_int_range(0, PRIME as int);
        lemma_len_subset(states, set_int_range(0, PRIME as int));
        assert(false);
    }
}

/// The walk through the multiplicative group: a generator and the current
/// state.
#[derive(Clone, Copy, Debug)]
pub struct Cyclic {
    generator: u64,
    current: u64,
}

impl Cyclic {
    /// The multiplier of each step.
    pub closed spec fn generator(&self) -> nat {
        self.generator as nat
    }

    /// The current state.
    pub closed spec fn current(&self) -> nat {
        self.current as nat
    }

    /// Generator and state are nonzero IPv4 addresses.
    pub open spec fn wf(&self) -> bool {
        &&& 1 <= self.generator() < ADDRESS_LIMIT
        &&& 1 <= self.current() < ADDRESS_LIMIT
    }

    /// Whether the generator is a power of the known generator with an
    /// accepted exponent, and so generates the whole group.
    pub open spec fn found(&self) -> bool {
        is_found(self.generator())
    }

    /// A walk with the given generator and state, where both are nonzero.
    pub fn from_state(generator: u32, current: u32) -> (r: Option<Self>)
        ensures
            r.is_some() <==> generator != 0 && current != 0,
            r matches Some(c) ==> c.wf() && c.generator() == generator && c.current() == current,
    {
        if generator == 0 || current == 0 {
            None
        } else {
            Some(Cyclic { generator: generator as u64, current: current as u64 })
        }
    }

    /// A walk whose generator is found by the search from the exponent
    /// `start`, and whose first state is `current`, or 1 where that is zero.
    pub fn from_exponent(start: u16, current: u32) -> (c: Self)
        ensures
            c.wf(),
            c.found(),
            found_from(start as u64, c.generator() as u64),
            c.current() == if current == 0 {
                1nat
            } else {
                current as nat
            },
    {
        let generator = generator_from(start as u64);
        let first: u64 = if current == 0 {
            1
        } else {
            current as u64
        };
        let c = Cyclic { generator, current: first };
        assert(found_from(start as u64, c.generator() as u64));
        c
    }

    /// A walk whose first state and generator come from the words of `aes`.
    /// The first word gives the state. Each further word gives a power of
    /// the known generator; the first power that is an IPv4 address is the
    /// generator. After `MAX_DRAWS` powers that are none, the generator is the
    /// power of the last candidate of the search.
    pub fn from_stream(aes: &mut AesRand) -> (c: Self)
        ensures
            c.wf(),
            c.found(),
            c.current() == state_drawn(AesRand::word_at(old(aes).key(), old(aes).counter())),
            c.generator() == generator_drawn(
                old(aes).key(),
                next_counter(old(aes).counter()),
                MAX_DRAWS as nat,
            ),
            final(aes).key() == old(aes).key(),
            final(aes).counter() == counter_drawn(
                old(aes).key(),
                next_counter(old(aes).counter()),
                MAX_DRAWS as nat,
            ),
    {
        let ghost key = aes.key();
        let ghost begin = next_counter(aes.counter());
        let word = aes.get_word();
        let low: u128 = word & 0xFFFF;
        assert(low <= 0xFFFF) by (bit_vector)
            requires
                low == word & 0xFFFF,
        ;
        let first: u64 = if low == 0 {
            1
        } else {
            low as u64
        };
        let mut draws: u32 = 0;
        while draws < MAX_DRAWS
            invariant
                draws <= MAX_DRAWS,
                1 <= first <= 0xFFFF,
                aes.key() == key,
                key == old(aes).key(),
                begin == next_counter(old(aes).counter()),
                first == state_drawn(AesRand::word_at(old(aes).key(), old(aes).counter())),
                generator_drawn(key, aes.counter(), (MAX_DRAWS - draws) as nat) == generator_drawn(
                    key,
                    begin,
                    MAX_DRAWS as nat,
                ),
                counter_drawn(key, aes.counter(), (MAX_DRAWS - draws) as nat) == counter_drawn(
                    key,
                    begin,
                    MAX_DRAWS as nat,
                ),
            decreases MAX_DRAWS - draws,
        {
            let generator = find_generator(aes);
            if generator < ADDRESS_LIMIT {
                return Cyclic { generator, current: first };
            }
            draws = draws + 1;
        }
        let last = generator_from(LAST_CANDIDATE);
        proof {
            lemma_last_candidate_usable();
        }
        Cyclic { generator: last, current: first }
    }

    /// A walk from a random state with a random generator: those that the
    /// words drawn under a fresh key give.
    pub fn new() -> (c: Self)
        ensures
            c.wf(),
            c.found(),
            c.current() <= 0xFFFF,
    {
        let mut aes = AesRand::new();
        let ghost word = AesRand::word_at(aes.key(), aes.counter());
        assert(low_bits(word) <= 0xFFFF) by {
            assert(word & 0xFFFF <= 0xFFFF) by (bit_vector);
        }
        Cyclic::from_stream(&mut aes)
    }

    /// The current state as an address.
    pub fn current_ip(&self) -> (ip: u32)
        requires
            self.wf(),
        ensures
            ip == self.current(),
    {
        self.current as u32
    }

    /// Steps until the state is an IPv4 address again, and returns it. At most
    /// 16 steps are needed, and the address is never 0.0.0.0.
    pub fn next_ip(&mut self) -> (ip: u32)
        requires
            old(self).wf(),
        ensures
            final(self).wf(),
            final(self).generator() == old(self).generator(),
            ip == final(self).current(),
            ip != 0,
            exists|n: nat|
                n <= 16 && #[trigger] next_address(
                    old(self).current(),
                    old(self).generator(),
                    n,
                    ip as nat,
                ),
    {
        let ghost c = self.current as nat;
        let ghost g = self.generator as nat;
        proof {
            lemma_all_invertible(g);
        }
        let ghost mut n: nat = 0;
        let ghost mut seen: Set<int> = Set::empty();
        let mut cur: u64 = self.current;
        loop
            invariant
                self.generator == g,
                has_inverse(g),
                1 <= g < ADDRESS_LIMIT,
                1 <= c < ADDRESS_LIMIT,
                c == old(self).current(),
                g == old(self).generator(),
                n <= 15,
                cur == walk(c, g, n),
                cur < PRIME,
                forall|m: nat| 1 <= m <= n ==> #[trigger] walk(c, g, m) >= ADDRESS_LIMIT,
                forall|m: nat| 1 <= m <= n ==> seen.contains(#[trigger] walk(c, g, m) as int),
                forall|x: int|
                    seen.contains(x) ==> exists|m: nat| 1 <= m <= n && #[trigger] walk(c, g, m) == x,
                seen.finite(),
                seen.len() == n,
            decreases 15 - n,
        {
            assert(cur * self.generator <= PRIME * ADDRESS_LIMIT) by (nonlinear_arith)
                requires
                    cur < PRIME,
                    self.generator < ADDRESS_LIMIT,
            ;
            let product: u128 = (cur as u128) * (self.generator as u128);
            let next: u64 = (product % (PRIME as u128)) as u64;
            proof {
                assert(next == walk(c, g, n + 1));
                lemma_walk_nonzero(c, g, n + 1);
            }
            if next < ADDRESS_LIMIT {
                self.current = next;
                proof {
                    assert(next_address(c, g, n + 1, next as nat));
                }
                return next as u32;
            }
            proof {
                if seen.contains(next as int) {
                    let m = choose|m: nat| 1 <= m <= n && #[trigger] walk(c, g, m) == next as int;
                    lemma_walk_repeats_at_start(c, g, m, n + 1);
                    assert(walk(c, g, (n + 1 - m) as nat) >= ADDRESS_LIMIT);
                    assert(false);
                }
                let grown = seen.insert(next as int);
                let big = set_int_range(ADDRESS_LIMIT as int, PRIME as int);
                lemma_int_range(ADDRESS_LIMIT as int, PRIME as int);
                assert(grown.subset_of(big)) by {
                    assert forall|x: int| grown.contains(x) implies big.contains(x) by {
                        if x != next as int {
                            let m = choose|m: nat| 1 <= m <= n && #[trigger] walk(c, g, m) == x;
                            lemma_walk_bounded(c, g, m);
                        }
                    }
                }
                lemma_len_subset(grown, big);
                assert forall|x: int| grown.contains(x) implies exists|m: nat|
                    1 <= m <= n + 1 && #[trigger] walk(c, g, m) == x by {
                    if x == next as int {
                        assert(walk(c, g, n + 1) == x);
                    } else {
                        let m = choose|m: nat| 1 <= m <= n && #[trigger] walk(c, g, m) == x;
                        assert(1 <= m <= n + 1 && walk(c, g, m) == x);
                    }
                }
                seen = grown;
                n = n + 1;
            }
            cur = next;
        }
    }
}

} // verus!
