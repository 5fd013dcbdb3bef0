# Komodo: cryptographically-proven erasure coding, verified with Verus

Komodo encodes data into shards over the scalar field of BLS12-381 with a
linear code, recodes and decodes them, and proves that a shard comes from a
correct encoding of the data with one of several commitment schemes.

The library under `src/` is verified with Verus: every public function has
a contract over a mathematical model of its inputs and results, and the laws
of the encoding (splitting and merging bytes, recoding, decoding what was
encoded) are stated and proved as public proof functions.

- `field`, `curve`: scalars of $\mathbb{F}_p$ by their canonical integer, and
  points of $\mathbb{G}_1$, $\mathbb{G}_2$ and $\mathbb{G}_T$ by their
  compressed encoding; the arithmetic of `ark_ff` and `ark_ec` is called
  behind trusted wrappers whose results are named.
- `algebra`: bytes to field elements and back, matrices (inversion, rank,
  Vandermonde matrices), polynomials, scalar products.
- `fec`: encoding, recoding and decoding of shards.
- `zk`, `kzg10`, `setup`: trusted setups and KZG commitments.
- `semi_avid`, `kzg`, `aplonk`: the proof schemes, with the inner product
  argument of aPlonK in `aplonk::ipa`.
- `fri`: evaluation of the data over a domain of roots of unity, shards of
  the evaluations, and decoding by interpolation.

`tests/` holds the tests of the library, run against the real outside
crates. `app/` is the command line tool around the library: arguments, files
on the disk, and the FRIDA commitments and proofs of `dragoonfri`.
