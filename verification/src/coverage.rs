//! One round of the permutation: with a generator of full order the walk
//! visits every nonzero residue once and comes back to its start.

use vstd::prelude::*;
use vstd::arithmetic::div_mod::{
    lemma_fundamental_div_mod,
    lemma_mul_mod_noop_general,
    lemma_small_mod,
};
use vstd::arithmetic::power::{lemma_pow0, lemma_pow_mod_noop, lemma_pow_multiplies, pow};
use vstd::set_lib::{lemma_int_range, lemma_subset_equality, set_int_range};
use crate::cyclic::{
    accepted,
    inverts,
    is_found,
    Cyclic,
    generator_of,
    has_inverse,
    lemma_distinct_states,
    lemma_generator_invertible,
    lemma_walk_adds,
    lemma_walk_bounded,
    lemma_walk_nonzero,
    lemma_walk_repeats_at_start,
    prime_factors,
    walk,
    ADDRESS_LIMIT,
    PRIME,
};
use crate::order::{
    full_order,
    is_prime,
    lemma_accepted_generates,
    lemma_factors_prime,
    lemma_fast_power,
    lemma_known_generator,
    lemma_power_of_one,
    lemma_power_whole,
    lemma_unit,
};

verus! {

/// The number of steps of one round: the size of the group.
pub open spec fn round() -> nat {
    (PRIME - 1) as nat
}

/// Whether the power of `g` with the size of the group as exponent is 1.
pub open spec fn closes(g: nat) -> bool {
    pow(g as int, round()) % (PRIME as int) == 1
}

/// Whether the walk from `c` is at `x` at the start of a round or in it,
/// before its last step.
pub open spec fn passes(c: nat, g: nat, x: nat) -> bool {
    exists|j: nat| j < round() && #[trigger] walk(c, g, j) == x
}

/// Whether the walk from `c` comes to `x` in the steps of one round, the last
/// one included.
pub open spec fn visits(c: nat, g: nat, x: nat) -> bool {
    exists|j: nat| 1 <= j <= round() && #[trigger] walk(c, g, j) == x
}

/// The walk from 1 lists the powers of the multiplier.
pub proof fn lemma_walk_power(g: nat, j: nat)
    ensures
        walk(1, g, j) == pow(g as int, j) % (PRIME as int),
    decreases j,
{
    let p = PRIME as int;
    if j == 0 {
        lemma_pow0(g as int);
        lemma_small_mod(1, PRIME as nat);
    } else {
        lemma_walk_power(g, (j - 1) as nat);
        lemma_mul_mod_noop_general(pow(g as int, (j - 1) as nat), g as int, p);
        assert(pow(g as int, j) == g * pow(g as int, (j - 1) as nat)) by {
            vstd::arithmetic::power::lemma_pow_adds(g as int, 1, (j - 1) as nat);
            vstd::arithmetic::power::lemma_pow1(g as int);
        }
        assert(pow(g as int, (j - 1) as nat) * g == g * pow(g as int, (j - 1) as nat))
            by (nonlinear_arith);
    }
}

/// A walk that is back at its start after `d` steps is back after every
/// multiple of `d` steps.
pub proof fn lemma_returns_multiples(c: nat, g: nat, d: nat, t: nat)
    requires
        walk(c, g, d) == c,
    ensures
        walk(c, g, d * t) == c,
    decreases t,
{
    if t == 0 {
        assert(d * 0 == 0);
    } else {
        lemma_returns_multiples(c, g, d, (t - 1) as nat);
        assert(d * t == d * (t - 1) + d) by (nonlinear_arith);
        lemma_walk_adds(c, g, d * ((t - 1) as nat), d);
    }
}

/// A walk that is back at its start after `d` steps repeats itself with
/// period `d`.
pub proof fn lemma_walk_periodic(c: nat, g: nat, d: nat, k: nat)
    requires
        d >= 1,
        walk(c, g, d) == c,
    ensures
        walk(c, g, k) == walk(c, g, k % d),
{
    let q = k / d;
    let r = k % d;
    lemma_fundamental_div_mod(k as int, d as int);
    lemma_returns_multiples(c, g, d, q);
    lemma_walk_adds(c, g, d * q, r);
    assert(d * q + r == k);
}

/// The first time at which a walk is back at its start, where it comes back
/// at all.
proof fn lemma_least_return(c: nat, g: nat, d: nat) -> (least: nat)
    requires
        d >= 1,
        walk(c, g, d) == c,
    ensures
        1 <= least <= d,
        walk(c, g, least) == c,
        forall|e: nat| 1 <= e < least ==> walk(c, g, e) != c,
    decreases d,
{
    if exists|e: nat| 1 <= e < d && walk(c, g, e) == c {
        let e = choose|e: nat| 1 <= e < d && walk(c, g, e) == c;
        lemma_least_return(c, g, e)
    } else {
        d
    }
}

/// The first return time divides every return time.
proof fn lemma_return_divides(c: nat, g: nat, least: nat, m: nat)
    requires
        least >= 1,
        walk(c, g, least) == c,
        forall|e: nat| 1 <= e < least ==> walk(c, g, e) != c,
        walk(c, g, m) == c,
    ensures
        m % least == 0,
{
    let q = m / least;
    let r = m % least;
    lemma_fundamental_div_mod(m as int, least as int);
    lemma_returns_multiples(c, g, least, q);
    lemma_walk_adds(c, g, least * q, r);
    assert(least * q + r == m);
}

/// Euclid's lemma: a number that divides a product and has an inverse modulo
/// itself for one factor divides the other factor.
proof fn lemma_euclid(q: nat, a: nat, b: nat, u: nat, v: nat)
    requires
        q > 0,
        u * q == 1 + v * a,
        (a * b) % q == 0,
    ensures
        b % q == 0,
{
    let k = (a * b) / q;
    lemma_fundamental_div_mod((a * b) as int, q as int);
    assert(a * b == q * k);
    assert(b == q * (u * b - v * k)) by (nonlinear_arith)
        requires
            u * q == 1 + v * a,
            a * b == q * k,
    ;
    let w = u * b - v * k;
    assert(w >= 0) by (nonlinear_arith)
        requires
            b == q * w,
            q > 0,
            b >= 0,
    ;
    assert((q * w) % (q as int) == 0) by (nonlinear_arith)
        requires
            q > 0,
    ;
}

/// One step of the search for a prime factor: a number that divides `f * rest`
/// is a multiple of the prime `f` or divides `rest`.
proof fn lemma_split_factor(q: nat, f: nat, rest: nat)
    requires
        q > 0,
        is_prime(f),
        (f * rest) % q == 0,
        q % f != 0,
    ensures
        rest % q == 0,
{
    let (u, v) = lemma_unit(q, f);
    lemma_euclid(q, f, rest, u, v);
}

/// Every divisor of `PRIME - 1` other than 1 is a multiple of one of its
/// prime factors.
pub proof fn lemma_prime_factor(q: nat)
    requires
        q > 1,
        round() % q == 0,
    ensures
        q % 2 == 0 || q % 3 == 0 || q % 5 == 0 || q % 131 == 0 || q % 364289 == 0,
{
    lemma_factors_prime();
    if !(q % 2 == 0 || q % 3 == 0 || q % 5 == 0 || q % 131 == 0 || q % 364289 == 0) {
        assert(round() == 2 * 2147483655nat);
        lemma_split_factor(q, 2, 2147483655);
        assert(2147483655nat == 3 * 715827885nat);
        lemma_split_factor(q, 3, 715827885);
        assert(715827885nat == 3 * 238609295nat);
        lemma_split_factor(q, 3, 238609295);
        assert(238609295nat == 5 * 47721859nat);
        lemma_split_factor(q, 5, 47721859);
        assert(47721859nat == 131 * 364289nat);
        lemma_split_factor(q, 131, 364289);
        assert(364289nat == 364289 * 1nat);
        lemma_split_factor(q, 364289, 1);
        lemma_small_mod(1, q);
    }
}

/// The powers of a generator of full order do not come back to 1 before the
/// round is over.
pub proof fn lemma_order(g: nat, d: nat)
    requires
        full_order(g),
        closes(g),
        0 < d < round(),
    ensures
        walk(1, g, d) != 1,
{
    if walk(1, g, d) == 1 {
        let n = round();
        let least = lemma_least_return(1, g, d);
        lemma_walk_power(g, n);
        lemma_return_divides(1, g, least, n);
        let q = n / least;
        lemma_fundamental_div_mod(n as int, least as int);
        assert(n == least * q);
        assert(q > 1) by (nonlinear_arith)
            requires
                n == least * q,
                1 <= least < n,
        ;
        assert(n % q == 0) by (nonlinear_arith)
            requires
                n == least * q,
                q > 0,
        ;
        lemma_prime_factor(q);
        assert(prime_factors().len() == 5);
        assert(prime_factors()[0] == 2 && prime_factors()[1] == 3 && prime_factors()[2] == 5
            && prime_factors()[3] == 131 && prime_factors()[4] == 364289);
        if q % 2 == 0 {
            lemma_early_return(g, least, q, 2);
            assert(prime_factors()[0] == 2);
        } else if q % 3 == 0 {
            lemma_early_return(g, least, q, 3);
            assert(prime_factors()[1] == 3);
        } else if q % 5 == 0 {
            lemma_early_return(g, least, q, 5);
            assert(prime_factors()[2] == 5);
        } else if q % 131 == 0 {
            lemma_early_return(g, least, q, 131);
            assert(prime_factors()[3] == 131);
        } else {
            lemma_early_return(g, least, q, 364289);
            assert(prime_factors()[4] == 364289);
        }
    }
}

/// A return time whose quotient in the round is a multiple of `f` makes the
/// power with exponent `(PRIME - 1) / f` equal to 1.
proof fn lemma_early_return(g: nat, least: nat, q: nat, f: nat)
    requires
        walk(1, g, least) == 1,
        round() == least * q,
        q % f == 0,
        f > 0,
    ensures
        pow(g as int, ((PRIME - 1) / (f as int)) as nat) % (PRIME as int) == 1,
{
    let n = round();
    let s = q / f;
    lemma_fundamental_div_mod(q as int, f as int);
    assert(q == f * s);
    let m = least * s;
    assert(n == f * m) by (nonlinear_arith)
        requires
            n == least * q,
            q == f * s,
            m == least * s,
    ;
    assert(m == n / f) by (nonlinear_arith)
        requires
            n == f * m,
            f > 0,
    ;
    lemma_returns_multiples(1, g, least, s);
    lemma_walk_power(g, m);
}

/// One round from 1: the powers of a generator of full order are all
/// different until the round is over, and every nonzero residue is among
/// them.
proof fn lemma_round_from_one(g: nat)
    requires
        has_inverse(g),
        full_order(g),
        closes(g),
    ensures
        walk(1, g, round()) == 1,
        forall|i: nat, j: nat| i < j < round() ==> walk(1, g, i) != walk(1, g, j),
        forall|x: nat| 1 <= x < PRIME ==> #[trigger] passes(1, g, x),
{
    let n = round();
    lemma_walk_power(g, n);
    assert forall|d: nat| 0 < d < round() implies walk(1, g, d) != 1 by {
        lemma_order(g, d);
    }
    lemma_distinct_round(1, g);
    lemma_all_residues(1, g);
}

/// A walk whose first return to its start takes a whole round has different
/// states all through the round.
proof fn lemma_distinct_round(c: nat, g: nat)
    requires
        has_inverse(g),
        c < PRIME,
        forall|d: nat| 0 < d < round() ==> walk(c, g, d) != c,
    ensures
        forall|i: nat, j: nat| i < j < round() ==> walk(c, g, i) != walk(c, g, j),
{
    assert forall|i: nat, j: nat| i < j < round() implies walk(c, g, i) != walk(c, g, j) by {
        if walk(c, g, i) == walk(c, g, j) {
            lemma_walk_repeats_at_start(c, g, i, j);
            let d = (j - i) as nat;
            assert(0 < d < round() && walk(c, g, d) == c);
        }
    }
}

/// A walk with different states all through a round passes every nonzero
/// residue.
proof fn lemma_all_residues(c: nat, g: nat)
    requires
        has_inverse(g),
        0 < c < PRIME,
        forall|i: nat, j: nat| i < j < round() ==> walk(c, g, i) != walk(c, g, j),
    ensures
        forall|x: nat| 1 <= x < PRIME ==> #[trigger] passes(c, g, x),
{
    let n = round();
    let states = lemma_distinct_states(c, g, n);
    let all = set_int_range(1, PRIME as int);
    lemma_int_range(1, PRIME as int);
    assert(states.subset_of(all)) by {
        assert forall|x: int| states.contains(x) implies all.contains(x) by {
            let m = choose|m: nat| m < n && #[trigger] walk(c, g, m) == x;
            lemma_walk_nonzero(c, g, m);
            lemma_walk_bounded(c, g, m);
        }
    }
    lemma_subset_equality(states, all);
    assert forall|x: nat| 1 <= x < PRIME implies #[trigger] passes(c, g, x) by {
        assert(all.contains(x as int));
        assert(states.contains(x as int));
        let m = choose|m: nat| m < n && #[trigger] walk(c, g, m) == x as int;
        assert(m < round() && walk(c, g, m) == x);
    }
}

/// One round of the permutation: from any nonzero start, a walk with a
/// generator of full order comes back to the start after `PRIME - 1` steps,
/// has different states all through the round, and passes every nonzero
/// residue.
pub proof fn lemma_round(c: nat, g: nat)
    requires
        has_inverse(g),
        full_order(g),
        closes(g),
        0 < c < PRIME,
    ensures
        walk(c, g, round()) == c,
        forall|d: nat| 0 < d < round() ==> walk(c, g, d) != c,
        forall|i: nat, j: nat| i < j < round() ==> walk(c, g, i) != walk(c, g, j),
        forall|x: nat| 1 <= x < PRIME ==> #[trigger] passes(c, g, x),
{
    let n = round();
    lemma_round_from_one(g);
    assert(passes(1, g, c));
    let j0 = choose|j: nat| j < round() && #[trigger] walk(1, g, j) == c;
    assert(j0 < n && walk(1, g, j0) == c);
    lemma_walk_adds(1, g, j0, n);
    lemma_walk_adds(1, g, n, j0);
    assert(j0 + n == n + j0);
    assert forall|d: nat| 0 < d < round() implies walk(c, g, d) != c by {
        if walk(c, g, d) == c {
            lemma_walk_adds(1, g, j0, d);
            lemma_walk_repeats_at_start(1, g, j0, j0 + d);
            assert((j0 + d - j0) as nat == d);
            lemma_order(g, d);
        }
    }
    lemma_distinct_round(c, g);
    lemma_all_residues(c, g);
}

/// The power of a found generator with the size of the group as exponent
/// is 1.
pub proof fn lemma_generator_closes(k: nat)
    ensures
        closes(generator_of(k)),
{
    let p = PRIME as int;
    let n = round();
    let big = pow(3, k);
    lemma_pow_mod_noop(big, n, p);
    lemma_pow_multiplies(3, k, n);
    lemma_pow_multiplies(3, n, k);
    assert(k * n == n * k) by (nonlinear_arith);
    lemma_power_whole();
    lemma_fast_power(3, n);
    lemma_power_of_one(pow(3, n), k);
}

/// Every nonzero residue has an inverse modulo `PRIME`: it is a power of the
/// known generator.
pub proof fn lemma_all_invertible(x: nat)
    requires
        1 <= x < PRIME,
    ensures
        has_inverse(x),
{
    lemma_known_generator();
    lemma_fast_power(3, round());
    assert(inverts(3, 2863311541));
    lemma_round_from_one(3);
    assert(passes(1, 3, x));
    let j = choose|j: nat| j < round() && #[trigger] walk(1, 3, j) == x;
    lemma_walk_power(3, j);
    lemma_generator_invertible(j);
}

/// Permutation coverage: with a generator that the search accepts, the walk
/// from any nonzero address comes back to it after `PRIME - 1` steps, does not
/// repeat a state before that, is never at zero, and passes every nonzero
/// address. So the addresses given out in one round are all the nonzero
/// addresses, each once, and the round ends at the start.
pub proof fn lemma_permutation_coverage(g: u64, c: nat)
    requires
        is_found(g as nat),
        1 <= c < ADDRESS_LIMIT,
    ensures
        walk(c, g as nat, round()) == c,
        forall|i: nat, j: nat| i < j < round() ==> walk(c, g as nat, i) != walk(c, g as nat, j),
        forall|j: nat| walk(c, g as nat, j) != 0,
        forall|a: nat| 1 <= a < ADDRESS_LIMIT ==> #[trigger] visits(c, g as nat, a),
{
    let k = choose|k: u64| #[trigger] accepted(k) && g as nat == generator_of(k as nat);
    lemma_accepted_generates(k);
    lemma_generator_invertible(k as nat);
    lemma_generator_closes(k as nat);
    lemma_round(c, g as nat);
    assert forall|j: nat| walk(c, g as nat, j) != 0 by {
        lemma_walk_nonzero(c, g as nat, j);
    }
    assert forall|a: nat| 1 <= a < ADDRESS_LIMIT implies #[trigger] visits(c, g as nat, a) by {
        assert(passes(c, g as nat, a));
        let j = choose|j: nat| j < round() && #[trigger] walk(c, g as nat, j) == a;
        if j == 0 {
            assert(walk(c, g as nat, round()) == a);
        } else {
            assert(1 <= j <= round() && walk(c, g as nat, j) == a);
        }
    }
}

/// One round of a walk whose generator the search accepted: from its current
/// address the walk comes back after `PRIME - 1` steps, does not repeat a
/// state before that, is never at zero, and passes every nonzero address.
pub proof fn lemma_cyclic_round(c: Cyclic)
    requires
        c.wf(),
        c.found(),
    ensures
        walk(c.current(), c.generator(), round()) == c.current(),
        forall|i: nat, j: nat|
            i < j < round() ==> walk(c.current(), c.generator(), i) != walk(
                c.current(),
                c.generator(),
                j,
            ),
        forall|j: nat| walk(c.current(), c.generator(), j) != 0,
        forall|a: nat|
            1 <= a < ADDRESS_LIMIT ==> #[trigger] visits(c.current(), c.generator(), a),
{
    lemma_permutation_coverage(c.generator() as u64, c.current());
}

} // verus!
