//! The AES-128 block cipher, used as a keyed pseudo-random function.

use vstd::prelude::*;
use aes::cipher::{BlockEncrypt, KeyInit};

verus! {

/// The AES-128 encryption of the 16-byte block `block` under the 16-byte key
/// `key`.
pub uninterp spec fn aes128_encrypt(key: Seq<u8>, block: Seq<u8>) -> Seq<u8>;

/// Calls `Aes128::new` and `encrypt_block` of the `aes` crate: one block
/// encrypted under `key`. The result depends on the key and the block alone.
#[verifier::external_body]
fn encrypt_block(key: &[u8; 16], block: &[u8; 16]) -> (out: [u8; 16])
    ensures
        out@ == aes128_encrypt(key@, block@),
{
    let cipher = aes::Aes128::new(&aes::cipher::generic_array::GenericArray::from(*key));
    let mut data = aes::cipher::generic_array::GenericArray::from(*block);
    cipher.encrypt_block(&mut data);
    data.into()
}

/// An AES-128 key, ready to encrypt single blocks.
#[derive(Clone, Copy, Debug)]
pub struct AesCtx {
    key: [u8; 16],
}

impl AesCtx {
    /// The key of this context.
    pub closed spec fn key(&self) -> Seq<u8> {
        self.key@
    }

    pub fn new(key: &[u8; 16]) -> (ctx: Self)
        ensures
            ctx.key() == key@,
    {
        AesCtx { key: *key }
    }

    /// Encrypts one block under the key of this context.
    pub fn encrypt(&self, block: &[u8; 16]) -> (out: [u8; 16])
        ensures
            out@ == aes128_encrypt(self.key(), block@),
    {
        encrypt_block(&self.key, block)
    }
}

} // verus!
