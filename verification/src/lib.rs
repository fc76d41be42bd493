//! A wagering-settlement engine.
//!
//! Players escrow a stake against a prediction that a future reported price
//! will fall into one of up to two numeric zones; a trusted authority later
//! submits the settled price, and the engine pays winners from a pooled
//! escrow vault, net of a protocol fee.
//!
//! The whole state-transition logic is verified: record-address derivation,
//! escrow bookkeeping, bet validation, settlement arithmetic, authorization,
//! and the all-or-nothing effect of every operation.

pub mod codec;
pub mod errors;
pub mod keys;
pub mod ledger;
pub mod math;
pub mod state;
