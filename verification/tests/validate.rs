use zmap_rs::aesrand::AesRand;
use zmap_rs::rijndael::AesCtx;
use zmap_rs::validate::{gen, new_context, validation_words};

#[test]
fn aes_known_answer() {
    // FIPS-197, appendix C.1.
    let key: [u8; 16] = [
        0x00, 0x01, 0x02, 0x03, 0x04, 0x05, 0x06, 0x07, 0x08, 0x09, 0x0a, 0x0b, 0x0c, 0x0d, 0x0e,
        0x0f,
    ];
    let block: [u8; 16] = [
        0x00, 0x11, 0x22, 0x33, 0x44, 0x55, 0x66, 0x77, 0x88, 0x99, 0xaa, 0xbb, 0xcc, 0xdd, 0xee,
        0xff,
    ];
    let expected: [u8; 16] = [
        0x69, 0xc4, 0xe0, 0xd8, 0x6a, 0x7b, 0x04, 0x30, 0xd8, 0xcd, 0xb7, 0x80, 0x70, 0xb4, 0xc5,
        0x5a,
    ];
    assert_eq!(AesCtx::new(&key).encrypt(&block), expected);
}

#[test]
fn tag_is_the_encryption_of_both_addresses_and_zeros() {
    let key = [0x42u8; 16];
    let ctx = AesCtx::new(&key);
    let src = u32::from_be_bytes([192, 168, 68, 3]);
    let dst = u32::from_be_bytes([46, 216, 152, 50]);
    let block = [192, 168, 68, 3, 46, 216, 152, 50, 0, 0, 0, 0, 0, 0, 0, 0];
    assert_eq!(gen(&ctx, src, dst), ctx.encrypt(&block));
    assert_ne!(gen(&ctx, src, dst), block);
    assert_ne!(gen(&ctx, src, dst), gen(&ctx, dst, src));
}

#[test]
fn tag_depends_on_the_key() {
    let a = AesCtx::new(&[1u8; 16]);
    let b = AesCtx::new(&[2u8; 16]);
    assert_eq!(gen(&a, 1, 2), gen(&a, 1, 2));
    assert_ne!(gen(&a, 1, 2), gen(&b, 1, 2));
}

#[test]
fn validation_words_are_big_endian() {
    let tag: [u8; 16] = [
        0x01, 0x02, 0x03, 0x04, 0xa0, 0xb0, 0xc0, 0xd0, 9, 9, 9, 9, 9, 9, 9, 9,
    ];
    assert_eq!(validation_words(&tag), [0x0102_0304, 0xa0b0_c0d0]);
}

#[test]
fn fresh_contexts_encrypt() {
    let ctx = new_context();
    let t = gen(&ctx, 10, 20);
    assert_eq!(t, gen(&ctx, 10, 20));
}

#[test]
fn word_stream_encrypts_a_running_counter() {
    let key = [9u8; 16];
    let ctx = AesCtx::new(&key);
    let mut r = AesRand::with_key(&key);
    let w0 = r.get_word();
    let w1 = r.get_word();
    let w2 = r.get_word();
    assert_eq!(w0, u128::from_be_bytes(ctx.encrypt(&0u128.to_be_bytes())));
    assert_eq!(w1, u128::from_be_bytes(ctx.encrypt(&1u128.to_be_bytes())));
    assert_eq!(w2, u128::from_be_bytes(ctx.encrypt(&2u128.to_be_bytes())));
    assert_ne!(w0, w1);
}

#[test]
fn random_streams_differ() {
    let mut a = AesRand::new();
    let mut b = AesRand::new();
    let wa: Vec<u128> = (0..4).map(|_| a.get_word()).collect();
    let wb: Vec<u128> = (0..4).map(|_| b.get_word()).collect();
    assert_ne!(wa, wb);
}
