//! Proofs that a decrypted share and a public key hide the same private
//! key: a challenge from the hash of two commitments, and a response.

use crate::field::{lemma_small_is_reduced, order};
use crate::ristretto::{ristretto_mul, ristretto_sub, CompressedRistretto, RistrettoPoint};
use crate::scalar::{lemma_scalar_of, scalar_of, Scalar};
use crate::transcript::{wipe, zeroed, Transcript};
use crate::utils::challenge;
use vstd::prelude::*;

verus! {

/// `(d, z)` is the proof that the nonce `r` gives for a share: `d` is the
/// challenge for the public key, the encrypted share and the commitments
/// `r * g` and `r * decrypted`, from a transcript that had absorbed `before`,
/// and `z = r + d * private_key`.
pub open spec fn is_dleq_proof(
    proof: (Scalar, Scalar),
    g: Seq<u8>,
    private_key: int,
    public_key: Seq<u8>,
    decrypted: Seq<u8>,
    encrypted: Seq<u8>,
    r: int,
    before: Seq<u8>,
) -> bool {
    &&& proof.0.wf()
    &&& proof.1.wf()
    &&& proof.0@ == challenge(
        before + public_key + encrypted + ristretto_mul(r % order(), g) + ristretto_mul(
            r % order(),
            decrypted,
        ),
    )
    &&& proof.1@ == (r + proof.0@ * private_key) % order()
}

/// `(d, z)` is the proof that some nonce gives for a share.
pub open spec fn has_dleq_proof(
    proof: (Scalar, Scalar),
    g: Seq<u8>,
    private_key: int,
    public_key: Seq<u8>,
    decrypted: Seq<u8>,
    encrypted: Seq<u8>,
    before: Seq<u8>,
) -> bool {
    exists|nonce: int| #[trigger]
        is_dleq_proof(proof, g, private_key, public_key, decrypted, encrypted, nonce, before)
}

/// Whether `(d, z)` is accepted for a share: whether `d` is the challenge for
/// the public key, the encrypted share and the commitments recomputed as
/// `z * g - d * public_key` and `z * decrypted - d * encrypted`.
pub open spec fn dleq_accepts(
    g: Seq<u8>,
    public_key: Seq<u8>,
    encrypted: Seq<u8>,
    decrypted: Seq<u8>,
    d: Scalar,
    z: Scalar,
) -> bool {
    d == scalar_of(
        challenge(
            public_key + encrypted + ristretto_sub(
                ristretto_mul(z@ % order(), g),
                ristretto_mul(d@ % order(), public_key),
            ) + ristretto_sub(
                ristretto_mul(z@ % order(), decrypted),
                ristretto_mul(d@ % order(), encrypted),
            ),
        ),
    )
}

/// The proof for one share with the nonce `r`. The transcript is left empty
/// and `buf` cleared.
pub fn dleq_prove(
    g: &RistrettoPoint,
    private_key: &Scalar,
    public_key: &CompressedRistretto,
    decrypted: &RistrettoPoint,
    encrypted: &RistrettoPoint,
    r: &Scalar,
    hasher: &mut Transcript,
    buf: &mut [u8; 64],
) -> (proof: (Scalar, Scalar))
    requires
        g.wf(),
        decrypted.wf(),
    ensures
        is_dleq_proof(
            proof,
            g@,
            private_key@,
            public_key@,
            decrypted@,
            encrypted@,
            r@,
            old(hasher)@,
        ),
        final(hasher)@ == Seq::<u8>::empty(),
        final(buf)@ == zeroed(),
{
    let c1 = g.mul(r).compress();
    let c2 = decrypted.mul(r).compress();
    hasher.absorb(public_key.as_bytes().as_slice());
    hasher.absorb(encrypted.compress().as_bytes().as_slice());
    hasher.absorb(c1.as_bytes().as_slice());
    hasher.absorb(c2.as_bytes().as_slice());
    assert(hasher@ =~= old(hasher)@ + public_key@ + encrypted@ + c1@ + c2@);
    hasher.squeeze(buf);
    let d = Scalar::from_bytes_mod_order_wide(buf);
    let z = r.add(&d.mul(private_key));
    proof {
        vstd::arithmetic::div_mod::lemma_add_mod_noop_right(r@, d@ * private_key@, order());
    }
    hasher.reset();
    wipe(buf);
    (d, z)
}

/// Whether the proof `(d, z)` is accepted for a share. The local transcript
/// is empty before and after, and the scratch buffer is cleared.
pub fn dleq_verify(
    g: &RistrettoPoint,
    public_key: &RistrettoPoint,
    encrypted: &RistrettoPoint,
    decrypted: &RistrettoPoint,
    d: &Scalar,
    z: &Scalar,
    hasher: &mut Transcript,
    buf: &mut [u8; 64],
) -> (r: bool)
    requires
        g.wf(),
        public_key.wf(),
        encrypted.wf(),
        decrypted.wf(),
        old(hasher)@ == Seq::<u8>::empty(),
    ensures
        r == dleq_accepts(g@, public_key@, encrypted@, decrypted@, *d, *z),
        final(hasher)@ == Seq::<u8>::empty(),
        final(buf)@ == zeroed(),
{
    let num1 = g.mul(z);
    let num2 = decrypted.mul(z);
    let denom1 = public_key.mul(d);
    let denom2 = encrypted.mul(d);
    let c1 = num1.sub(&denom1).compress();
    let c2 = num2.sub(&denom2).compress();
    hasher.absorb(public_key.compress().as_bytes().as_slice());
    hasher.absorb(encrypted.compress().as_bytes().as_slice());
    hasher.absorb(c1.as_bytes().as_slice());
    hasher.absorb(c2.as_bytes().as_slice());
    assert(hasher@ =~= public_key@ + encrypted@ + c1@ + c2@);
    hasher.squeeze(buf);
    let reconstructed_d = Scalar::from_bytes_mod_order_wide(buf);
    hasher.reset();
    wipe(buf);
    proof {
        let v = challenge(public_key@ + encrypted@ + c1@ + c2@);
        lemma_small_is_reduced(reconstructed_d@);
        lemma_scalar_of(reconstructed_d, v);
        if d.bytes@ == reconstructed_d.bytes@ {
            assert(d.bytes =~= reconstructed_d.bytes);
        }
    }
    d.equals(&reconstructed_d)
}

} // verus!
