//! Schemes by which a consumer can verify that a registered agent was fresh as of the
//! last committed state.
//!
//! Every scheme answers the same question, "prove that agent `i` was fresh, and let a
//! consumer verify it", at a very different cost per gating decision, proof size and
//! amount of data to fetch per window: [`Naive`], [`Merkle`], [`SigAttestation`],
//! [`RsaAccumulator`] and [`Bond`]. What they have in common is the trait
//! [`LivenessScheme`], which also states what makes a scheme complete: the consumer
//! accepts every proof that the issuer hands out. Two more schemes are only described,
//! by [`proxies`].
pub mod attestation;
pub mod bond;
pub mod commitment;
pub mod digest;
pub mod ed25519;
pub mod merkle;
pub mod message;
pub mod naive;
pub mod natural;
pub mod prime_supply;
pub mod primes;
pub mod proxy;
pub mod rsa;
pub mod scheme;

pub use crate::attestation::SigAttestation;
pub use crate::bond::Bond;
pub use crate::merkle::Merkle;
pub use crate::naive::Naive;
pub use crate::natural::Natural;
pub use crate::primes::first_n_odd_primes;
pub use crate::proxy::{proxies, Proxy};
pub use crate::rsa::RsaAccumulator;
pub use crate::scheme::LivenessScheme;
