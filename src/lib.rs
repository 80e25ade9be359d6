//! Coordination layer and distributed protocol of a multi-party polynomial
//! commitment prover over BLS12-381.
//!
//! Parties form a full mesh of byte streams described by a static host list.
//! The library holds the verified logic of that mesh (the host-list parser,
//! the connection schedule, the collective primitives with their framing and
//! traffic counters) and of the protocol that rides on it: each party's
//! shares of commitments and openings, the master's aggregation of the shares,
//! the Fiat-Shamir challenges that the master alone derives, and the
//! verification of the resulting proofs. The byte streams themselves are
//! driven by the caller, which hands the library what it read and performs
//! what the library decides.

pub mod algebra;
pub mod central;
pub mod channel;
pub mod error;
pub mod frame;
pub mod kzg;
pub mod opening;
pub mod poly;
pub mod protocol;
pub mod setup;
pub mod topology;
pub mod transcript;
pub mod verify;
