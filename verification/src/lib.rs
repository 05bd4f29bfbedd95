//! Tracks misbehaviour reports raised against participants of a consensus
//! protocol, deduplicates resubmitted evidence, and hands newly confirmed
//! reports back to the caller for escalation, exactly once per incident.

pub mod alist;
pub mod chain;
pub mod ids;
pub mod laws;
pub mod model;
pub mod pallet;
pub mod scale;
pub mod types;
