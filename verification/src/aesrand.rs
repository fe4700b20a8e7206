//! A stream of 128-bit words: AES applied to a running counter under a key
//! drawn at random.

use vstd::prelude::*;
use crate::rijndael::{aes128_encrypt, AesCtx};

verus! {

/// Calls `rand::thread_rng().gen()` for 16 bytes. Nothing is promised of their
/// values.
#[verifier::external_body]
pub(crate) fn random_key() -> (key: [u8; 16]) {
    let mut rng = rand::thread_rng();
    rand::Rng::gen(&mut rng)
}

/// The 16 bytes of `word`, most significant first.
pub open spec fn be_bytes(word: u128) -> Seq<u8> {
    seq![
        (word >> 120u128) as u8,
        ((word >> 112u128) & 0xff) as u8,
        ((word >> 104u128) & 0xff) as u8,
        ((word >> 96u128) & 0xff) as u8,
        ((word >> 88u128) & 0xff) as u8,
        ((word >> 80u128) & 0xff) as u8,
        ((word >> 72u128) & 0xff) as u8,
        ((word >> 64u128) & 0xff) as u8,
        ((word >> 56u128) & 0xff) as u8,
        ((word >> 48u128) & 0xff) as u8,
        ((word >> 40u128) & 0xff) as u8,
        ((word >> 32u128) & 0xff) as u8,
        ((word >> 24u128) & 0xff) as u8,
        ((word >> 16u128) & 0xff) as u8,
        ((word >> 8u128) & 0xff) as u8,
        (word & 0xff) as u8,
    ]
}

/// The word whose 16 bytes, most significant first, are `bytes`.
pub open spec fn be_word(bytes: Seq<u8>) -> u128
    recommends
        bytes.len() == 16,
{
    ((bytes[0] as u128) << 120u128)
        | ((bytes[1] as u128) << 112u128)
        | ((bytes[2] as u128) << 104u128)
        | ((bytes[3] as u128) << 96u128)
        | ((bytes[4] as u128) << 88u128)
        | ((bytes[5] as u128) << 80u128)
        | ((bytes[6] as u128) << 72u128)
        | ((bytes[7] as u128) << 64u128)
        | ((bytes[8] as u128) << 56u128)
        | ((bytes[9] as u128) << 48u128)
        | ((bytes[10] as u128) << 40u128)
        | ((bytes[11] as u128) << 32u128)
        | ((bytes[12] as u128) << 24u128)
        | ((bytes[13] as u128) << 16u128)
        | ((bytes[14] as u128) << 8u128)
        | (bytes[15] as u128)
}

/// The bytes of `word`, most significant first.
fn word_to_bytes(word: u128) -> (bytes: [u8; 16])
    ensures
        bytes@ == be_bytes(word),
{
    let bytes: [u8; 16] = [
        (word >> 120) as u8,
        ((word >> 112) & 0xff) as u8,
        ((word >> 104) & 0xff) as u8,
        ((word >> 96) & 0xff) as u8,
        ((word >> 88) & 0xff) as u8,
        ((word >> 80) & 0xff) as u8,
        ((word >> 72) & 0xff) as u8,
        ((word >> 64) & 0xff) as u8,
        ((word >> 56) & 0xff) as u8,
        ((word >> 48) & 0xff) as u8,
        ((word >> 40) & 0xff) as u8,
        ((word >> 32) & 0xff) as u8,
        ((word >> 24) & 0xff) as u8,
        ((word >> 16) & 0xff) as u8,
        ((word >> 8) & 0xff) as u8,
        (word & 0xff) as u8,
    ];
    assert(bytes@ =~= be_bytes(word));
    bytes
}

/// The word that `bytes` write, most significant first.
fn word_from_bytes(bytes: [u8; 16]) -> (word: u128)
    ensures
        word == be_word(bytes@),
{
    ((bytes[0] as u128) << 120)
        | ((bytes[1] as u128) << 112)
        | ((bytes[2] as u128) << 104)
        | ((bytes[3] as u128) << 96)
        | ((bytes[4] as u128) << 88)
        | ((bytes[5] as u128) << 80)
        | ((bytes[6] as u128) << 72)
        | ((bytes[7] as u128) << 64)
        | ((bytes[8] as u128) << 56)
        | ((bytes[9] as u128) << 48)
        | ((bytes[10] as u128) << 40)
        | ((bytes[11] as u128) << 32)
        | ((bytes[12] as u128) << 24)
        | ((bytes[13] as u128) << 16)
        | ((bytes[14] as u128) << 8)
        | (bytes[15] as u128)
}

/// A generator of pseudo-random 128-bit words.
pub struct AesRand {
    ctx: AesCtx,
    counter: u128,
}

impl AesRand {
    /// The key under which the counter is encrypted.
    pub closed spec fn key(&self) -> Seq<u8> {
        self.ctx.key()
    }

    /// The number of words drawn so far, modulo 2^128.
    pub closed spec fn counter(&self) -> u128 {
        self.counter
    }

    /// The word that a generator with key `key` gives at counter `counter`.
    pub open spec fn word_at(key: Seq<u8>, counter: u128) -> u128 {
        be_word(aes128_encrypt(key, be_bytes(counter)))
    }

    /// A generator under a fresh random key, with its counter at 0.
    pub fn new() -> (r: Self)
        ensures
            r.counter() == 0,
    {
        let key = random_key();
        AesRand { ctx: AesCtx::new(&key), counter: 0 }
    }

    /// A generator under the given key, with its counter at 0.
    pub fn with_key(key: &[u8; 16]) -> (r: Self)
        ensures
            r.counter() == 0,
            r.key() == key@,
    {
        AesRand { ctx: AesCtx::new(key), counter: 0 }
    }

    /// The next word: the encryption of the counter, which then goes up by one
    /// and wraps at 2^128.
    pub fn get_word(&mut self) -> (word: u128)
        ensures
            word == Self::word_at(old(self).key(), old(self).counter()),
            final(self).key() == old(self).key(),
            final(self).counter() == if old(self).counter() == u128::MAX {
                0u128
            } else {
                (old(self).counter() + 1) as u128
            },
    {
        let input = word_to_bytes(self.counter);
        let output = self.ctx.encrypt(&input);
        self.counter = self.counter.wrapping_add(1);
        word_from_bytes(output)
    }
}

} // verus!
