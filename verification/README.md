# my_zk_rs

A verified library of the building blocks of the Spartan proof system over
BLS12-381, written in Verus.

- `limbs`, `mont`, `modular`, `bits`, `field_math`, `ff`: a prime field in
  Montgomery form over `u64` limbs, with every operation proved against the
  integers modulo `p`.
- `poly`, `mv_poly`, `mv_poly_ops`, `uni_poly`, `mle`, `matrix`, `r1cs`,
  `spartan_r1cs`, `helpers`: polynomials (sparse multivariate, univariate by
  coefficients or values, multilinear extensions), matrices and rank-1
  constraint systems.
- `bytes`, `fp_codec`, `transcript`: the byte encodings and the Fiat-Shamir
  transcript, whose contents every contract states.
- `sumcheck`, `zk_sumcheck`: the sum-check protocol, plain and
  zero-knowledge; each round polynomial is stated as the partial sums of
  the combination.
- `sumcheck_complete`: completeness of both sum-check provers: for a
  combination of bounded degree and a true claim, the final claim is the
  combination of the factors' final values.
- `curve`, `pedersen`, `sigma`, `ipa`, `hyrax`: G1 of BLS12-381 (through
  `ark-bls12-381`), Pedersen commitments, sigma protocols, inner-product
  arguments and the Hyrax polynomial commitment.
- `spartan_nark`, `spartan_nizk`: the two Spartan arguments.

The curve and hash operations are outside code: their results are named by
uninterpreted spec functions, so the verifiers' contracts are exact in terms
of those names, while facts that rest on the group law (such as an honest
proof verifying) are checked by the tests.

`app/main.rs` proves and verifies a small constraint system.
