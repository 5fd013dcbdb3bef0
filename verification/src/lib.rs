//! Komodo: erasure coding over the scalar field of BLS12-381, with verified
//! linear algebra, encoding, recoding and decoding.
pub mod algebra;
pub mod aplonk;
pub mod conversions;
pub mod curve;
pub mod error;
pub mod fec;
pub mod field;
pub mod fri;
pub mod kzg;
pub mod kzg10;
pub mod semi_avid;
pub mod setup;
pub mod zk;

use vstd::prelude::*;
use crate::error::KomodoError;

verus! {

/// A protocol that proves that shards come from a correct encoding of some
/// data: a setup, a commitment of the data, one proof for each shard, and
/// the verification of a shard with its proof.
pub trait Protocol {
    type Setup;
    type Commitment;
    type Shard;
    type Proof;
    type VerifierKey;

    /// The setup for data up to some degree, and its verifier key.
    fn setup(&self, degree: usize, rng: &mut ark_std::rand::rngs::StdRng) -> Result<(Self::Setup, Self::VerifierKey), KomodoError>;

    /// The commitment of the data.
    fn commit(&self, bytes: &[u8], setup: &Self::Setup) -> Result<Self::Commitment, KomodoError>;

    /// The proofs of the shards.
    fn prove(
        &self,
        bytes: &[u8],
        commitment: &Self::Commitment,
        shards: &[Self::Shard],
        setup: &Self::Setup,
    ) -> Result<Vec<Self::Proof>, KomodoError>;

    /// Whether a shard and its proof agree with the commitment.
    fn verify(
        &self,
        commitment: &Self::Commitment,
        shard: &Self::Shard,
        proof: &Self::Proof,
        vk: &Self::VerifierKey,
    ) -> Result<bool, KomodoError>;
}

} // verus!
