//! A minimal ledger actor that queries a peer actor's balance, receives the
//! peer's answer through a host-invoked continuation, and reacts with a
//! conditional value transfer.
//!
//! The crate is split along the actor's duties:
//! - [`codec`] defines the wire shape exchanged with the peer (an account
//!   identifier plus an unsigned 128-bit balance) and proves the encoding
//!   lossless;
//! - [`outcome`] classifies the delivered call outcome and applies the
//!   threshold policy — the core decision logic of the continuation;
//! - [`contract`] holds the actor itself: the entry points that describe
//!   remote calls and transfers for the host scheduler to perform.
//!
//! The host edge (reading the environment, scheduling promises) lives outside
//! this crate; every function here is plain logic from values to values.

pub mod codec;
pub mod contract;
pub mod outcome;
