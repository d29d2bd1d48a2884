//! Threshold-approval voting: a committee of principals authorizes opaque
//! payloads by approving proposals; a payload is released exactly once, when
//! the distinct approvals first reach the threshold.
pub mod admin;
pub mod codec;
pub mod multisig;
pub mod principal;
pub mod storage;

pub use codec::Codec;
pub use multisig::{Multisig, MultisigError, Proposal, ProposalId};
pub use principal::Principal;
pub use storage::{MultisigManager, MultisigStorage, NoStorage};
