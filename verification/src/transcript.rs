//! The Fiat-Shamir transcript: an extendable-output hash that absorbs bytes,
//! is squeezed for 64 bytes, and is reset.
//!
//! The hash is BLAKE3, computed by the `blake3` crate; contracts speak of its
//! output by name.

use vstd::prelude::*;
use zeroize::Zeroize;

verus! {

#[verifier::external_type_specification]
#[verifier::external_body]
pub struct ExHasher(blake3::Hasher);

/// The bytes that a hasher has been fed since it was made or last reset.
pub uninterp spec fn absorbed(h: blake3::Hasher) -> Seq<u8>;

/// The first 64 bytes of the extendable output of unkeyed BLAKE3 on `input`.
pub uninterp spec fn blake3_xof(input: Seq<u8>) -> Seq<u8>;

/// Sixty-four zero bytes.
pub open spec fn zeroed() -> Seq<u8> {
    Seq::new(64, |i: int| 0u8)
}

/// A transcript. It is made empty, and holds an unkeyed hasher.
pub struct Transcript {
    hasher: blake3::Hasher,
}

impl View for Transcript {
    type V = Seq<u8>;

    /// The bytes absorbed since the transcript was made or last reset.
    closed spec fn view(&self) -> Seq<u8> {
        absorbed(self.hasher)
    }
}

/// `blake3::Hasher::new`: an unkeyed hasher that has absorbed nothing.
#[verifier::external_body]
fn blake3_new() -> (t: Transcript)
    ensures
        absorbed(t.hasher) == Seq::<u8>::empty(),
{
    Transcript { hasher: blake3::Hasher::new() }
}

/// `blake3::Hasher::update`: the input is appended to what was absorbed.
#[verifier::external_body]
fn blake3_update(t: &mut Transcript, data: &[u8])
    ensures
        absorbed(final(t).hasher) == absorbed(old(t).hasher) + data@,
{
    t.hasher.update(data);
}

/// `blake3::Hasher::finalize_xof` and `OutputReader::fill` on a 64-byte
/// buffer: the buffer holds the start of the extendable output for what was
/// absorbed. The hasher itself is not changed.
#[verifier::external_body]
fn blake3_fill(t: &Transcript, buf: &mut [u8; 64])
    ensures
        final(buf)@ == blake3_xof(absorbed(t.hasher)),
{
    t.hasher.finalize_xof().fill(buf);
}

/// `blake3::Hasher::reset`: the hasher is as when it was made.
#[verifier::external_body]
fn blake3_reset(t: &mut Transcript)
    ensures
        absorbed(final(t).hasher) == Seq::<u8>::empty(),
{
    t.hasher.reset();
}

/// `zeroize::Zeroize::zeroize` on a 64-byte buffer: every byte is zero
/// afterwards.
#[verifier::external_body]
fn zeroize_64(buf: &mut [u8; 64])
    ensures
        final(buf)@ == zeroed(),
{
    buf.zeroize();
}

impl Transcript {
    /// A fresh transcript.
    pub fn new() -> (t: Transcript)
        ensures
            t@ == Seq::<u8>::empty(),
    {
        blake3_new()
    }

    /// Absorbs `data`.
    pub fn absorb(&mut self, data: &[u8])
        ensures
            final(self)@ == old(self)@ + data@,
    {
        blake3_update(self, data);
    }

    /// Writes 64 bytes of output for what has been absorbed into `buf`.
    pub fn squeeze(&self, buf: &mut [u8; 64])
        ensures
            final(buf)@ == blake3_xof(self@),
    {
        blake3_fill(self, buf);
    }

    /// Discards what has been absorbed.
    pub fn reset(&mut self)
        ensures
            final(self)@ == Seq::<u8>::empty(),
    {
        blake3_reset(self);
    }
}

/// Clears a scratch buffer.
pub fn wipe(buf: &mut [u8; 64])
    ensures
        final(buf)@ == zeroed(),
{
    zeroize_64(buf);
}

/// The 64 bytes that a fresh transcript gives after absorbing `input`.
pub fn digest(input: &[u8]) -> (out: [u8; 64])
    ensures
        out@ == blake3_xof(input@),
{
    let mut t = Transcript::new();
    let mut out = [0u8; 64];
    t.absorb(input);
    t.squeeze(&mut out);
    out
}

} // verus!
