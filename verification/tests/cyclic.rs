use zmap_rs::aesrand::AesRand;
use zmap_rs::cyclic::{check_coprime, find_generator, generator_from, next_candidate, Cyclic};

const PRIME: u64 = 4294967311;

fn modpow(mut base: u64, mut exp: u64) -> u64 {
    let mut acc: u128 = 1;
    let mut b: u128 = (base % PRIME) as u128;
    while exp > 0 {
        if exp & 1 == 1 {
            acc = acc * b % PRIME as u128;
        }
        b = b * b % PRIME as u128;
        exp >>= 1;
    }
    base = acc as u64;
    base
}

#[test]
fn coprime_rejects_factors_their_multiples_and_divisors() {
    for k in [0u64, 1, 2, 3, 5, 131, 364289] {
        assert!(!check_coprime(k), "{}", k);
    }
    for k in [4u64, 6, 9, 10, 15, 262, 393, 728578, 364289 * 7] {
        assert!(!check_coprime(k), "{}", k);
    }
    for k in [7u64, 11, 13, 17, 49, 77, 65537] {
        assert!(check_coprime(k), "{}", k);
    }
}

#[test]
fn generator_is_power_of_three() {
    assert_eq!(generator_from(7), 2187);
    assert_eq!(generator_from(0), 2187);
    assert_eq!(generator_from(8), 177147);
    assert_eq!(generator_from(11), 177147);
    assert_eq!(generator_from(65537), 2843899199);
    assert_eq!(generator_from(65536), 2843899199);
}

#[test]
fn generator_has_full_order() {
    for start in [0u64, 7, 100, 1000, 30000, 65535, 65537] {
        let g = generator_from(start);
        assert!(g >= 1 && g < (1u64 << 32));
        for f in [2u64, 3, 5, 131, 364289] {
            assert_ne!(modpow(g, (PRIME - 1) / f), 1, "start {} factor {}", start, f);
        }
        assert_eq!(modpow(g, PRIME - 1), 1);
    }
}

#[test]
fn find_generator_uses_the_low_bits_of_the_next_word() {
    let key = [7u8; 16];
    let mut a = AesRand::with_key(&key);
    let mut b = AesRand::with_key(&key);
    let word = a.get_word();
    let g = find_generator(&mut b);
    assert_eq!(g, generator_from((word & 0xFFFF) as u64));
}

#[test]
fn walk_multiplies_by_the_generator() {
    let mut c = Cyclic::from_exponent(7, 1);
    assert_eq!(c.current_ip(), 1);
    let got: Vec<u32> = (0..6).map(|_| c.next_ip()).collect();
    assert_eq!(got, vec![2187, 4782969, 1870418581, 1796556575, 3469107271, 2025330451]);
    assert_eq!(c.current_ip(), 2025330451);

    let mut c = Cyclic::from_exponent(11, 5);
    let got: Vec<u32> = (0..3).map(|_| c.next_ip()).collect();
    assert_eq!(got, vec![885735, 2286474849, 972844637]);
}

#[test]
fn walk_passes_over_states_that_are_no_addresses() {
    // 2741552065 * 2187 mod p is p - 1, which is no address.
    let mut c = Cyclic::from_exponent(7, 2741552065);
    assert_eq!(c.next_ip(), 4294965124);
    let mut c = Cyclic::from_exponent(7, 2468575176);
    assert_eq!(c.next_ip(), 4294934506);
}

#[test]
fn zero_start_becomes_one() {
    let c = Cyclic::from_exponent(7, 0);
    assert_eq!(c.current_ip(), 1);
}

#[test]
fn first_outputs_are_distinct_and_nonzero() {
    let mut c = Cyclic::from_exponent(65535, 12345);
    let mut seen = std::collections::HashSet::new();
    for _ in 0..200_000 {
        let ip = c.next_ip();
        assert_ne!(ip, 0);
        assert!(seen.insert(ip));
    }
}

#[test]
fn random_walk_starts_in_the_low_addresses() {
    let mut c = Cyclic::new();
    let start = c.current_ip();
    assert!(start >= 1 && start <= 0xFFFF);
    for _ in 0..1000 {
        assert_ne!(c.next_ip(), 0);
    }
}

#[test]
fn find_generator_draws_one_word() {
    let key = [11u8; 16];
    let mut drawn = AesRand::with_key(&key);
    let mut reference = AesRand::with_key(&key);
    let first = reference.get_word();
    let second = reference.get_word();
    let g = find_generator(&mut drawn);
    let k = next_candidate((first & 0xFFFF) as u64);
    assert!(check_coprime(k));
    assert_eq!(g, modpow(3, k));
    // The next word of the stream is the second one: one word was drawn.
    assert_eq!(drawn.get_word(), second);
}

#[test]
fn next_candidate_is_the_first_accepted_exponent() {
    assert_eq!(next_candidate(0), 7);
    assert_eq!(next_candidate(7), 7);
    assert_eq!(next_candidate(8), 11);
    assert_eq!(next_candidate(65536), 65537);
    assert_eq!(next_candidate(65537), 65537);
}

#[test]
fn walk_from_a_given_state() {
    // 2863311540 * 3 and the next product are 2^32 or more and are passed over.
    let mut c = Cyclic::from_state(3, 2863311540).unwrap();
    assert_eq!(c.current_ip(), 2863311540);
    assert_eq!(c.next_ip(), 4294967293);
    assert_eq!(c.current_ip(), 4294967293);
    assert!(Cyclic::from_state(0, 5).is_none());
    assert!(Cyclic::from_state(5, 0).is_none());
    let mut c = Cyclic::from_state(2187, 1).unwrap();
    assert_eq!(c.next_ip(), 2187);
}

#[test]
fn walk_from_a_word_stream() {
    for seed in 0u8..20 {
        let key = [seed; 16];
        let mut reference = AesRand::with_key(&key);
        let state_word = reference.get_word();
        let generator_word = reference.get_word();
        let third = reference.get_word();
        let state = std::cmp::max(1, (state_word & 0xFFFF) as u32);
        let g = modpow(3, next_candidate((generator_word & 0xFFFF) as u64));
        assert!(g < (1u64 << 32));

        let mut stream = AesRand::with_key(&key);
        let mut c = Cyclic::from_stream(&mut stream);
        assert_eq!(c.current_ip(), state);
        let mut expected = Cyclic::from_state(g as u32, state).unwrap();
        for _ in 0..100 {
            assert_eq!(c.next_ip(), expected.next_ip());
        }
        // Two words were drawn: one for the state, one for the generator.
        assert_eq!(stream.get_word(), third);
    }
}
