//! The order of the generators: every generator that the search finds
//! generates the whole multiplicative group modulo `PRIME`.

use vstd::prelude::*;
use vstd::arithmetic::div_mod::{
    lemma_add_mod_noop,
    lemma_fundamental_div_mod,
    lemma_mul_mod_noop_general,
    lemma_small_mod,
};
use vstd::arithmetic::power::{
    lemma1_pow,
    lemma_pow0,
    lemma_pow1,
    lemma_pow_adds,
    lemma_pow_mod_noop,
    lemma_pow_multiplies,
    pow,
};
use crate::cyclic::{accepted, generator_of, is_found, prime_factors, PRIME};

verus! {

/// `b` to the power `e` modulo `PRIME`, by repeated squaring.
#[verifier::opaque]
pub open spec fn fast_power(b: nat, e: nat) -> nat
    decreases e,
{
    if e == 0 {
        1
    } else {
        let half = fast_power(b, e / 2);
        let square = (half * half) % (PRIME as nat);
        if e % 2 == 1 {
            (square * b) % (PRIME as nat)
        } else {
            square
        }
    }
}

/// Repeated squaring computes the power.
pub proof fn lemma_fast_power(b: nat, e: nat)
    ensures
        fast_power(b, e) == pow(b as int, e) % (PRIME as int),
    decreases e,
{
    reveal(fast_power);
    let m = PRIME as int;
    if e == 0 {
        lemma_pow0(b as int);
        lemma_small_mod(1, PRIME as nat);
    } else {
        let h = e / 2;
        lemma_fast_power(b, h);
        lemma_pow_adds(b as int, h, h);
        lemma_mul_mod_noop_general(pow(b as int, h), pow(b as int, h), m);
        if e % 2 == 1 {
            assert(e == h + h + 1);
            lemma_pow_adds(b as int, h + h, 1);
            lemma_pow1(b as int);
            lemma_mul_mod_noop_general(pow(b as int, h + h), b as int, m);
        } else {
            assert(e == h + h);
        }
    }
}

/// One step of repeated squaring for the known generator: from the power
/// with exponent `h` to the power with exponent `2 * h`, or `2 * h + 1` where
/// `odd` is set.
proof fn lemma_power_step(h: nat, odd: bool, half: nat, whole: nat)
    requires
        h > 0 || odd,
        fast_power(3, h) == half,
        whole == if odd {
            (((half * half) % (PRIME as nat)) * 3) % (PRIME as nat)
        } else {
            (half * half) % (PRIME as nat)
        },
    ensures
        fast_power(
            3,
            if odd {
                2 * h + 1
            } else {
                2 * h
            },
        ) == whole,
{
    reveal(fast_power);
    if odd {
        assert((2 * h + 1) / 2 == h);
    } else {
        assert((2 * h) / 2 == h);
    }
}

/// The power with exponent zero.
proof fn lemma_power_zero()
    ensures
        fast_power(3, 0) == 1,
{
    reveal(fast_power);
}

/// The known generator to the power `PRIME - 1` is 1.
pub proof fn lemma_power_whole()
    ensures
        fast_power(3, 4294967310) == 1,
{
    lemma_power_zero();
    lemma_power_step(0, true, 1, 3);
    lemma_power_step(1, false, 3, 9);
    lemma_power_step(2, false, 9, 81);
    lemma_power_step(4, false, 81, 6561);
    lemma_power_step(8, false, 6561, 43046721);
    lemma_power_step(16, false, 43046721, 3787161312);
    lemma_power_step(32, false, 3787161312, 2960817548);
    lemma_power_step(64, false, 2960817548, 1176516725);
    lemma_power_step(128, false, 1176516725, 93247894);
    lemma_power_step(256, false, 93247894, 4119348425);
    lemma_power_step(512, false, 4119348425, 363315125);
    lemma_power_step(1024, false, 363315125, 1144738664);
    lemma_power_step(2048, false, 1144738664, 3159559037);
    lemma_power_step(4096, false, 3159559037, 3984249440);
    lemma_power_step(8192, false, 3984249440, 132383238);
    lemma_power_step(16384, false, 132383238, 3943573603);
    lemma_power_step(32768, false, 3943573603, 2379622170);
    lemma_power_step(65536, false, 2379622170, 1856824743);
    lemma_power_step(131072, false, 1856824743, 481598255);
    lemma_power_step(262144, false, 481598255, 2950815293);
    lemma_power_step(524288, false, 2950815293, 3113557537);
    lemma_power_step(1048576, false, 3113557537, 3857766064);
    lemma_power_step(2097152, false, 3857766064, 67588542);
    lemma_power_step(4194304, false, 67588542, 2173327255);
    lemma_power_step(8388608, false, 2173327255, 3817161173);
    lemma_power_step(16777216, false, 3817161173, 1562112570);
    lemma_power_step(33554432, false, 1562112570, 628487581);
    lemma_power_step(67108864, false, 628487581, 2095987730);
    lemma_power_step(134217728, false, 2095987730, 2634914581);
    lemma_power_step(268435456, true, 2634914581, 2960733660);
    lemma_power_step(536870913, true, 2960733660, 4254106977);
    lemma_power_step(1073741827, true, 4254106977, 4294967310);
    lemma_power_step(2147483655, false, 4294967310, 1);
}

/// The known generator to the power `(PRIME - 1) / 2`.
proof fn lemma_power_half()
    ensures
        fast_power(3, 2147483655) == 4294967310,
{
    lemma_power_zero();
    lemma_power_step(0, true, 1, 3);
    lemma_power_step(1, false, 3, 9);
    lemma_power_step(2, false, 9, 81);
    lemma_power_step(4, false, 81, 6561);
    lemma_power_step(8, false, 6561, 43046721);
    lemma_power_step(16, false, 43046721, 3787161312);
    lemma_power_step(32, false, 3787161312, 2960817548);
    lemma_power_step(64, false, 2960817548, 1176516725);
    lemma_power_step(128, false, 1176516725, 93247894);
    lemma_power_step(256, false, 93247894, 4119348425);
    lemma_power_step(512, false, 4119348425, 363315125);
    lemma_power_step(1024, false, 363315125, 1144738664);
    lemma_power_step(2048, false, 1144738664, 3159559037);
    lemma_power_step(4096, false, 3159559037, 3984249440);
    lemma_power_step(8192, false, 3984249440, 132383238);
    lemma_power_step(16384, false, 132383238, 3943573603);
    lemma_power_step(32768, false, 3943573603, 2379622170);
    lemma_power_step(65536, false, 2379622170, 1856824743);
    lemma_power_step(131072, false, 1856824743, 481598255);
    lemma_power_step(262144, false, 481598255, 2950815293);
    lemma_power_step(524288, false, 2950815293, 3113557537);
    lemma_power_step(1048576, false, 3113557537, 3857766064);
    lemma_power_step(2097152, false, 3857766064, 67588542);
    lemma_power_step(4194304, false, 67588542, 2173327255);
    lemma_power_step(8388608, false, 2173327255, 3817161173);
    lemma_power_step(16777216, false, 3817161173, 1562112570);
    lemma_power_step(33554432, false, 1562112570, 628487581);
    lemma_power_step(67108864, false, 628487581, 2095987730);
    lemma_power_step(134217728, false, 2095987730, 2634914581);
    lemma_power_step(268435456, true, 2634914581, 2960733660);
    lemma_power_step(536870913, true, 2960733660, 4254106977);
    lemma_power_step(1073741827, true, 4254106977, 4294967310);
}

/// The known generator to the power `(PRIME - 1) / 3`.
proof fn lemma_power_third()
    ensures
        fast_power(3, 1431655770) == 2086193154,
{
    lemma_power_zero();
    lemma_power_step(0, true, 1, 3);
    lemma_power_step(1, false, 3, 9);
    lemma_power_step(2, true, 9, 243);
    lemma_power_step(5, false, 243, 59049);
    lemma_power_step(10, true, 59049, 1870418581);
    lemma_power_step(21, false, 1870418581, 2025330451);
    lemma_power_step(42, true, 2025330451, 4135563353);
    lemma_power_step(85, false, 4135563353, 2508700846);
    lemma_power_step(170, true, 2508700846, 3915654013);
    lemma_power_step(341, false, 3915654013, 3504594753);
    lemma_power_step(682, true, 3504594753, 4188938322);
    lemma_power_step(1365, false, 4188938322, 852342645);
    lemma_power_step(2730, true, 852342645, 1423853252);
    lemma_power_step(5461, false, 1423853252, 3380113069);
    lemma_power_step(10922, true, 3380113069, 4111872537);
    lemma_power_step(21845, false, 4111872537, 3229968403);
    lemma_power_step(43690, true, 3229968403, 4142869590);
    lemma_power_step(87381, false, 4142869590, 594127823);
    lemma_power_step(174762, true, 594127823, 451127629);
    lemma_power_step(349525, false, 451127629, 673660018);
    lemma_power_step(699050, true, 673660018, 798758848);
    lemma_power_step(1398101, false, 798758848, 4016292260);
    lemma_power_step(2796202, true, 4016292260, 1415602151);
    lemma_power_step(5592405, false, 1415602151, 134640199);
    lemma_power_step(11184810, true, 134640199, 4021536364);
    lemma_power_step(22369621, false, 4021536364, 2519842127);
    lemma_power_step(44739242, true, 2519842127, 1264487963);
    lemma_power_step(89478485, true, 1264487963, 2409208392);
    lemma_power_step(178956971, false, 2409208392, 2127053489);
    lemma_power_step(357913942, true, 2127053489, 2086193155);
    lemma_power_step(715827885, false, 2086193155, 2086193154);
}

/// The known generator to the power `(PRIME - 1) / 5`.
proof fn lemma_power_fifth()
    ensures
        fast_power(3, 858993462) == 239247313,
{
    lemma_power_zero();
    lemma_power_step(0, true, 1, 3);
    lemma_power_step(1, true, 3, 27);
    lemma_power_step(3, false, 27, 729);
    lemma_power_step(6, false, 729, 531441);
    lemma_power_step(12, true, 531441, 1180049176);
    lemma_power_step(25, true, 1180049176, 2987653642);
    lemma_power_step(51, false, 2987653642, 3080109521);
    lemma_power_step(102, false, 3080109521, 348479229);
    lemma_power_step(204, true, 348479229, 1242287779);
    lemma_power_step(409, true, 1242287779, 715059020);
    lemma_power_step(819, false, 715059020, 3339646144);
    lemma_power_step(1638, false, 3339646144, 490912713);
    lemma_power_step(3276, true, 490912713, 531193381);
    lemma_power_step(6553, true, 531193381, 2150959545);
    lemma_power_step(13107, false, 2150959545, 1138512195);
    lemma_power_step(26214, false, 1138512195, 3374286204);
    lemma_power_step(52428, true, 3374286204, 779427999);
    lemma_power_step(104857, true, 779427999, 1897320785);
    lemma_power_step(209715, false, 1897320785, 968103296);
    lemma_power_step(419430, false, 968103296, 2058677312);
    lemma_power_step(838860, true, 2058677312, 3847737827);
    lemma_power_step(1677721, true, 3847737827, 961729736);
    lemma_power_step(3355443, false, 961729736, 1349648637);
    lemma_power_step(6710886, false, 1349648637, 2250585946);
    lemma_power_step(13421772, true, 2250585946, 1891972257);
    lemma_power_step(26843545, true, 1891972257, 73645023);
    lemma_power_step(53687091, false, 73645023, 3476587882);
    lemma_power_step(107374182, true, 3476587882, 3012920034);
    lemma_power_step(214748365, true, 3012920034, 3639993378);
    lemma_power_step(429496731, false, 3639993378, 239247313);
}

/// The known generator to the power `(PRIME - 1) / 131`.
proof fn lemma_power_by_131()
    ensures
        fast_power(3, 32786010) == 1859000016,
{
    lemma_power_zero();
    lemma_power_step(0, true, 1, 3);
    lemma_power_step(1, true, 3, 27);
    lemma_power_step(3, true, 27, 2187);
    lemma_power_step(7, true, 2187, 14348907);
    lemma_power_step(15, true, 14348907, 1262387104);
    lemma_power_step(31, false, 1262387104, 2237854088);
    lemma_power_step(62, true, 2237854088, 679866147);
    lemma_power_step(125, false, 679866147, 3918033621);
    lemma_power_step(250, false, 3918033621, 1950446494);
    lemma_power_step(500, false, 1950446494, 42508036);
    lemma_power_step(1000, true, 42508036, 871434080);
    lemma_power_step(2001, false, 871434080, 2229375486);
    lemma_power_step(4002, false, 2229375486, 3642804383);
    lemma_power_step(8004, false, 3642804383, 2291656374);
    lemma_power_step(16008, true, 2291656374, 1076887065);
    lemma_power_step(32017, true, 1076887065, 2280747379);
    lemma_power_step(64035, false, 2280747379, 3690245490);
    lemma_power_step(128070, false, 3690245490, 268904517);
    lemma_power_step(256140, true, 268904517, 1630182478);
    lemma_power_step(512281, false, 1630182478, 2614321356);
    lemma_power_step(1024562, true, 2614321356, 2321729022);
    lemma_power_step(2049125, true, 2321729022, 4034394164);
    lemma_power_step(4098251, false, 4034394164, 4106967900);
    lemma_power_step(8196502, true, 4106967900, 133628779);
    lemma_power_step(16393005, false, 133628779, 1859000016);
}

/// The known generator to the power `(PRIME - 1) / 364289`.
proof fn lemma_power_by_364289()
    ensures
        fast_power(3, 11790) == 1338913740,
{
    lemma_power_zero();
    lemma_power_step(0, true, 1, 3);
    lemma_power_step(1, false, 3, 9);
    lemma_power_step(2, true, 9, 243);
    lemma_power_step(5, true, 243, 177147);
    lemma_power_step(11, true, 177147, 3948865296);
    lemma_power_step(23, false, 3948865296, 843008713);
    lemma_power_step(46, false, 843008713, 3570863356);
    lemma_power_step(92, false, 3570863356, 3516356701);
    lemma_power_step(184, false, 3516356701, 675745296);
    lemma_power_step(368, false, 675745296, 1855424333);
    lemma_power_step(736, true, 1855424333, 3407953815);
    lemma_power_step(1473, true, 3407953815, 1998743639);
    lemma_power_step(2947, true, 1998743639, 2349539339);
    lemma_power_step(5895, false, 2349539339, 1338913740);
}

/// Whether `f` has no divisor between 1 and itself.
pub open spec fn is_prime(f: nat) -> bool {
    f > 1 && forall|d: nat| 1 < d < f ==> #[trigger] (f % d) != 0
}

/// The five factors of `PRIME - 1` are prime.
pub proof fn lemma_factors_prime()
    ensures
        is_prime(2),
        is_prime(3),
        is_prime(5),
        is_prime(131),
        is_prime(364289),
{
    assert forall|d: nat| 1 < d < 3 implies #[trigger] (3nat % d) != 0 by {
        assert(d == 2);
    }
    assert forall|d: nat| 1 < d < 5 implies #[trigger] (5nat % d) != 0 by {
        assert(d == 2 || d == 3 || d == 4);
    }
    assert forall|d: nat| 1 < d < 131 implies #[trigger] (131nat % d) != 0 by {
        let x = d as u32;
        assert(1 < x < 131 ==> 131u32 % x != 0) by (bit_vector);
    }
    assert forall|d: nat| 1 < d < 364289 implies #[trigger] (364289nat % d) != 0 by {
        let x = d as u32;
        assert(1 < x < 364289 ==> 364289u32 % x != 0) by (bit_vector);
    }
}

/// The greatest common divisor of two numbers and the coefficients that
/// combine the numbers to it.
proof fn lemma_bezout(x: nat, y: nat) -> (r: (int, int, int))
    requires
        x > 0 || y > 0,
    ensures
        r.0 > 0,
        r.1 * x + r.2 * y == r.0,
        (x as int) % r.0 == 0,
        (y as int) % r.0 == 0,
    decreases y,
{
    if y == 0 {
        assert(1 * x + 0 * y == x) by (nonlinear_arith);
        assert((x as int) % (x as int) == 0) by (nonlinear_arith)
            requires
                x > 0,
        ;
        assert(0int % (x as int) == 0) by (nonlinear_arith)
            requires
                x > 0,
        ;
        (x as int, 1, 0)
    } else {
        let rest = x % y;
        let q = (x / y) as int;
        let (d, a, b) = lemma_bezout(y, rest);
        lemma_fundamental_div_mod(x as int, y as int);
        assert(x == y * q + rest);
        assert(b * x + (a - b * q) * y == d) by (nonlinear_arith)
            requires
                a * y + b * rest == d,
                x == y * q + rest,
        ;
        lemma_mul_mod_noop_general(y as int, q, d);
        assert(0 * q == 0) by (nonlinear_arith);
        assert(0int % d == 0) by (nonlinear_arith)
            requires
                d > 0,
        ;
        lemma_add_mod_noop(y * q, rest as int, d);
        (d, b, a - b * q)
    }
}

/// A number that a prime does not divide has an inverse modulo the prime:
/// some multiple of the number is one more than a multiple of the prime.
pub proof fn lemma_unit(k: nat, f: nat) -> (r: (nat, nat))
    requires
        is_prime(f),
        k % f != 0,
    ensures
        r.0 * k == 1 + r.1 * f,
{
    let (d, a, b) = lemma_bezout(k, f);
    if d != 1 {
        assert(d <= f) by (nonlinear_arith)
            requires
                (f as int) % d == 0,
                f > 0,
                d > 0,
        ;
        if d < f {
            assert(f % (d as nat) != 0);
        }
    }
    let t: int = if a < 0 {
        1 - a
    } else {
        1
    };
    let big_a = a + t * f;
    let big_b = t * k - b;
    assert(big_a >= 1) by (nonlinear_arith)
        requires
            big_a == a + t * f,
            t >= 1,
            t >= 1 - a,
            f >= 2,
    ;
    assert(big_a * k == 1 + big_b * f) by (nonlinear_arith)
        requires
            big_a == a + t * f,
            big_b == t * k - b,
            a * k + b * f == 1,
    ;
    assert(k >= 1) by {
        lemma_small_mod(0, f);
    }
    assert(big_b >= 0) by (nonlinear_arith)
        requires
            big_a * k == 1 + big_b * f,
            big_a >= 1,
            k >= 1,
            f >= 2,
    ;
    (big_a as nat, big_b as nat)
}

/// A power of a number that is 1 modulo `PRIME` is 1 modulo `PRIME`.
pub proof fn lemma_power_of_one(x: int, e: nat)
    requires
        x % (PRIME as int) == 1,
    ensures
        pow(x, e) % (PRIME as int) == 1,
{
    lemma_pow_mod_noop(x, e, PRIME as int);
    lemma1_pow(e);
    lemma_small_mod(1, PRIME as nat);
}

/// Raising a generator to the power `(PRIME - 1) / f` does not give 1, where
/// the known generator to that power does not give 1 and the prime `f` does
/// not divide the exponent of the generator.
proof fn lemma_power_not_one(k: nat, f: nat, m: nat, x: nat)
    requires
        is_prime(f),
        k % f != 0,
        f * m == PRIME - 1,
        fast_power(3, m) == x,
        x != 1,
    ensures
        pow(generator_of(k) as int, m) % (PRIME as int) != 1,
{
    let p = PRIME as int;
    let n = (PRIME - 1) as nat;
    let big = pow(3, k);
    lemma_pow_mod_noop(big, m, p);
    lemma_pow_multiplies(3, k, m);
    if pow(3, k * m) % p == 1 {
        let (a, b) = lemma_unit(k, f);
        let e = (k * m) * a;
        lemma_pow_multiplies(3, k * m, a);
        lemma_power_of_one(pow(3, k * m), a);
        assert(pow(3, e) % p == 1);
        assert(e == m + b * n) by (nonlinear_arith)
            requires
                e == (k * m) * a,
                a * k == 1 + b * f,
                f * m == n,
        ;
        lemma_pow_adds(3, m, b * n);
        lemma_pow_multiplies(3, n, b);
        assert(n * b == b * n) by (nonlinear_arith);
        lemma_power_whole();
        lemma_fast_power(3, n);
        lemma_power_of_one(pow(3, n), b);
        lemma_fast_power(3, m);
        lemma_mul_mod_noop_general(pow(3, m), pow(3, b * n), p);
        assert((x * 1) % (PRIME as nat) == x) by {
            lemma_small_mod(x, PRIME as nat);
        }
        assert(false);
    }
}

/// An accepted exponent is a multiple of no prime factor of `PRIME - 1`.
proof fn lemma_accepted_indivisible(k: u64)
    requires
        accepted(k),
    ensures
        k % 2 != 0,
        k % 3 != 0,
        k % 5 != 0,
        k % 131 != 0,
        k % 364289 != 0,
{
    assert(prime_factors().len() == 5);
    assert(prime_factors()[0] == 2 && prime_factors()[1] == 3 && prime_factors()[2] == 5
        && prime_factors()[3] == 131 && prime_factors()[4] == 364289);
}

/// Whether `g` generates the whole group: for no prime factor `f` of
/// `PRIME - 1` is the power of `g` with exponent `(PRIME - 1) / f` equal to 1
/// modulo `PRIME`.
pub open spec fn full_order(g: nat) -> bool {
    forall|i: int|
        0 <= i < prime_factors().len() ==> pow(
            g as int,
            ((PRIME - 1) / (#[trigger] prime_factors()[i] as int)) as nat,
        ) % (PRIME as int) != 1
}

/// Every power of the known generator with an accepted exponent generates
/// the whole group.
pub proof fn lemma_accepted_generates(k: u64)
    requires
        accepted(k),
    ensures
        full_order(generator_of(k as nat)),
{
    lemma_factors_prime();
    lemma_accepted_indivisible(k);
    lemma_power_half();
    lemma_power_third();
    lemma_power_fifth();
    lemma_power_by_131();
    lemma_power_by_364289();
    lemma_power_not_one(k as nat, 2, 2147483655, 4294967310);
    lemma_power_not_one(k as nat, 3, 1431655770, 2086193154);
    lemma_power_not_one(k as nat, 5, 858993462, 239247313);
    lemma_power_not_one(k as nat, 131, 32786010, 1859000016);
    lemma_power_not_one(k as nat, 364289, 11790, 1338913740);
    assert(prime_factors().len() == 5);
    assert(prime_factors()[0] == 2 && prime_factors()[1] == 3 && prime_factors()[2] == 5
        && prime_factors()[3] == 131 && prime_factors()[4] == 364289);
    assert forall|i: int| 0 <= i < prime_factors().len() implies pow(
        generator_of(k as nat) as int,
        ((PRIME - 1) / (#[trigger] prime_factors()[i] as int)) as nat,
    ) % (PRIME as int) != 1 by {
        assert(i == 0 || i == 1 || i == 2 || i == 3 || i == 4);
        assert(((PRIME - 1) / 2) as nat == 2147483655);
        assert(((PRIME - 1) / 3) as nat == 1431655770);
        assert(((PRIME - 1) / 5) as nat == 858993462);
        assert(((PRIME - 1) / 131) as nat == 32786010);
        assert(((PRIME - 1) / 364289) as nat == 11790);
    }
}

/// The known generator itself generates the whole group.
pub proof fn lemma_known_generator()
    ensures
        full_order(3),
        fast_power(3, (PRIME - 1) as nat) == 1,
{
    lemma_power_whole();
    lemma_power_half();
    lemma_power_third();
    lemma_power_fifth();
    lemma_power_by_131();
    lemma_power_by_364289();
    lemma_fast_power(3, 2147483655);
    lemma_fast_power(3, 1431655770);
    lemma_fast_power(3, 858993462);
    lemma_fast_power(3, 32786010);
    lemma_fast_power(3, 11790);
    assert(prime_factors().len() == 5);
    assert(prime_factors()[0] == 2 && prime_factors()[1] == 3 && prime_factors()[2] == 5
        && prime_factors()[3] == 131 && prime_factors()[4] == 364289);
    assert forall|i: int| 0 <= i < prime_factors().len() implies pow(
        3,
        ((PRIME - 1) / (#[trigger] prime_factors()[i] as int)) as nat,
    ) % (PRIME as int) != 1 by {
        assert(i == 0 || i == 1 || i == 2 || i == 3 || i == 4);
        assert(((PRIME - 1) / 2) as nat == 2147483655);
        assert(((PRIME - 1) / 3) as nat == 1431655770);
        assert(((PRIME - 1) / 5) as nat == 858993462);
        assert(((PRIME - 1) / 131) as nat == 32786010);
        assert(((PRIME - 1) / 364289) as nat == 11790);
    }
}

/// Generator validity: a power of the known generator with an accepted
/// exponent is not zero and generates the whole group. The walk takes such a
/// power only where it is an IPv4 address.
pub proof fn lemma_generator_valid(g: u64)
    requires
        is_found(g as nat),
    ensures
        1 <= g < PRIME,
        full_order(g as nat),
{
    let k = choose|k: u64| #[trigger] accepted(k) && g as nat == generator_of(k as nat);
    lemma_accepted_generates(k);
    crate::cyclic::lemma_generator_invertible(k as nat);
}

} // verus!
