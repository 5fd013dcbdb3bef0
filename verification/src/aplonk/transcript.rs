//! The transcript of the inner product argument: bytes that are hashed into
//! the challenges of each round.
use vstd::prelude::*;
use crate::field::{Scalar, le_bytes, le_value, modulus_p};
use crate::curve::{G1, Gt};
use crate::fec::{sha256, sha256_digest};

verus! {

/// The first transcript: the encodings of $C_G$, $r$ and $P$.
pub open spec fn initial_transcript(c_g: Seq<u8>, r: nat, p: Seq<u8>) -> Seq<u8> {
    c_g + le_bytes(r, 32) + p
}

/// The challenge of a round: the hash of the encodings of $L_G$, $R_G$,
/// $L_r$, $R_r$ and of the transcript, as a field element.
pub open spec fn round_challenge(l_g: Seq<u8>, r_g: Seq<u8>, l_r: Seq<u8>, r_r: Seq<u8>, ts: Seq<u8>) -> nat {
    le_value(sha256_digest(l_g + r_g + l_r + r_r + ts)) % modulus_p()
}

fn append_bytes(out: &mut Vec<u8>, bytes: Vec<u8>)
    ensures
        final(out)@ == old(out)@ + bytes@,
{
    let mut bytes = bytes;
    out.append(&mut bytes);
}

/// Initializes the transcript of the argument with $C_G$, $r$ and $P$.
pub fn initialize(c_g: &Gt, r: Scalar, p: &G1) -> (ts: Result<Vec<u8>, ark_serialize::SerializationError>)
    requires
        r.wf(),
    ensures
        ts matches Ok(t) && t@ == initial_transcript(c_g@, r@, p@),
{
    let mut ts: Vec<u8> = Vec::new();
    append_bytes(&mut ts, c_g.to_bytes());
    append_bytes(&mut ts, r.to_bytes_le());
    append_bytes(&mut ts, p.to_bytes());
    proof {
        assert(ts@ =~= initial_transcript(c_g@, r@, p@));
    }
    Ok(ts)
}

/// Resets the transcript to the challenge $u_j$ of the last round.
pub fn reset(u: Scalar) -> (ts: Result<Vec<u8>, ark_serialize::SerializationError>)
    requires
        u.wf(),
    ensures
        ts matches Ok(t) && t@ == le_bytes(u@, 32),
{
    Ok(u.to_bytes_le())
}

/// Hashes the elements of a round into the transcript: the challenge of the
/// round.
pub fn hash(l_g_j: &Gt, r_g_j: &Gt, l_r_j: &G1, r_r_j: &G1, ts: &[u8]) -> (u: Result<Scalar, ark_serialize::SerializationError>)
    ensures
        u matches Ok(x) && x.wf() && x@ == round_challenge(l_g_j@, r_g_j@, l_r_j@, r_r_j@, ts@),
{
    let mut bytes: Vec<u8> = Vec::new();
    append_bytes(&mut bytes, l_g_j.to_bytes());
    append_bytes(&mut bytes, r_g_j.to_bytes());
    append_bytes(&mut bytes, l_r_j.to_bytes());
    append_bytes(&mut bytes, r_r_j.to_bytes());
    let mut rest: Vec<u8> = Vec::new();
    let mut i: usize = 0;
    while i < ts.len()
        invariant
            i <= ts@.len(),
            rest@ == ts@.subrange(0, i as int),
        decreases ts@.len() - i,
    {
        rest.push(ts[i]);
        proof {
            assert(rest@ =~= ts@.subrange(0, i + 1));
        }
        i = i + 1;
    }
    proof {
        assert(rest@ =~= ts@);
    }
    append_bytes(&mut bytes, rest);
    let digest = sha256(bytes.as_slice());
    proof {
        assert(bytes@ =~= l_g_j@ + r_g_j@ + l_r_j@ + r_r_j@ + ts@);
    }
    Ok(Scalar::from_le_bytes_mod_order(digest.as_slice()))
}

} // verus!
