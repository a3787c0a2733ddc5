//! Authority-side message protocol of an object-centric ledger: identifiers,
//! signatures, protocol messages, their wire codec and quorum certificate assembly.

pub mod base_types;
pub mod crypto;
pub mod messages;
pub mod codec;
pub mod quorum;
