//! The validation tag: a keyed function of the two addresses of a probe, by
//! which a reply is recognised without any record of the probe.

use vstd::prelude::*;
use crate::aesrand::random_key;
use crate::packet::be4;
use crate::rijndael::{aes128_encrypt, AesCtx};

verus! {

/// The number that four bytes write, most significant first.
pub open spec fn be32(b0: u8, b1: u8, b2: u8, b3: u8) -> u32 {
    ((b0 as u32) << 24u32) | ((b1 as u32) << 16u32) | ((b2 as u32) << 8u32) | (b3 as u32)
}

/// The block that is encrypted for a pair of addresses: the source, the
/// destination, and eight zero bytes.
pub open spec fn tag_input(src: u32, dst: u32) -> Seq<u8> {
    be4(src) + be4(dst) + seq![0u8, 0u8, 0u8, 0u8, 0u8, 0u8, 0u8, 0u8]
}

/// The tag of a pair of addresses under a key.
pub open spec fn tag(key: Seq<u8>, src: u32, dst: u32) -> Seq<u8> {
    aes128_encrypt(key, tag_input(src, dst))
}

/// The first two 32-bit words of a tag: the sequence number of a probe, and
/// the number from which its source port is taken.
pub open spec fn tag_words(t: Seq<u8>) -> (u32, u32) {
    (be32(t[0], t[1], t[2], t[3]), be32(t[4], t[5], t[6], t[7]))
}

/// The two words of a tag that a probe carries: its sequence number, and the
/// number from which its source port is taken.
pub open spec fn validation_of(t: Seq<u8>) -> [u32; 2] {
    [tag_words(t).0, tag_words(t).1]
}

/// A context under a fresh random key.
pub fn new_context() -> (ctx: AesCtx) {
    let key = random_key();
    AesCtx::new(&key)
}

/// The tag of the pair `(src, dst)` under the key of `ctx`.
pub fn gen(ctx: &AesCtx, src: u32, dst: u32) -> (t: [u8; 16])
    ensures
        t@ == tag(ctx.key(), src, dst),
{
    let input: [u8; 16] = [
        (src >> 24) as u8,
        ((src >> 16) & 0xff) as u8,
        ((src >> 8) & 0xff) as u8,
        (src & 0xff) as u8,
        (dst >> 24) as u8,
        ((dst >> 16) & 0xff) as u8,
        ((dst >> 8) & 0xff) as u8,
        (dst & 0xff) as u8,
        0,
        0,
        0,
        0,
        0,
        0,
        0,
        0,
    ];
    assert(input@ =~= tag_input(src, dst));
    ctx.encrypt(&input)
}

/// The two words of a tag that a probe carries.
pub fn validation_words(t: &[u8; 16]) -> (v: [u32; 2])
    ensures
        v[0] == tag_words(t@).0,
        v[1] == tag_words(t@).1,
        v == validation_of(t@),
{
    let v0 = ((t[0] as u32) << 24) | ((t[1] as u32) << 16) | ((t[2] as u32) << 8) | (t[3] as u32);
    let v1 = ((t[4] as u32) << 24) | ((t[5] as u32) << 16) | ((t[6] as u32) << 8) | (t[7] as u32);
    let v = [v0, v1];
    assert(v@ =~= validation_of(t@)@);
    v
}

} // verus!
