# liveness-bench

Verified schemes for **agent liveness/freshness**: "is this registered agent actually
alive right now, verifiably?". Every scheme implements `LivenessScheme`: an issuer sets
up state for `n` agents, hands out a proof for one of them, and a consumer verifies it.

| scheme | type | proof | fetched per window |
|--------|------|------:|-------------------:|
| `naive-per-call` | `Naive` | 64 B | 0 |
| `merkle-ct` | `Merkle` | 33 B per level | 32 B |
| `sig-attestation` | `SigAttestation` | 64 B | 32 B |
| `rsa-accumulator` | `RsaAccumulator` | at most 256 B | at most 256 B |
| `crypto-economic-bond` | `Bond` | 0 | 32 B |

`kzg-verkle` and `recursive-snark` are only described, by `proxies`.

## What is proved

- Completeness of every scheme: the consumer accepts each proof that the issuer hands
  out (`LivenessScheme::lemma_complete`, and the postcondition of `setup`).
- What each proof consists of and exactly which proofs are accepted.
- `Merkle`: proof size and depth. The root is a commitment: as long as no two different
  byte strings hashed in `setup` and `verify` have the same digest, `verify` accepts only
  agents below `n`, whatever the proof, and only proofs with one record per level that
  carry the tree's own siblings; and the root tells `n` (`src/commitment.rs`).
- `RsaAccumulator`: accumulator and witnesses are the stated powers, in at most 256
  bytes for any number of agents.
- `first_n_odd_primes`: the search never leaves `u64`, by a proof of Chebyshev's lower
  bound on the number of primes (`src/prime_supply.rs`).

## What is trusted

SHA-256 (`sha2`), Ed25519 (`ed25519-dalek`) and big-integer arithmetic (`num-bigint`) are
called through the small functions marked `external_body` in `src/digest.rs`,
`src/ed25519.rs` and `src/natural.rs`; their comments say what is taken on trust. Keys,
signatures and big integers are held as bytes, so a verification also reads its key or
its numbers from their encodings.

## Layout

- `src/`: the verified library.
- `tests/`: its tests.
- `app/`: a program that prints the table of sizes, or, with `--bench`, runs the
  criterion benchmarks of the verify path.
