use vstd::prelude::*;

verus! {

/// The error kinds the settlement program itself can surface.
#[derive(Clone, Copy, PartialEq, Eq, Structural, Debug)]
pub enum SolamaError {
    /// Amount must be greater than 0.
    InvalidAmount,
    /// Must select 1 or 2 zones.
    InvalidZoneCount,
    /// A zone's lower bound must be less than its upper bound.
    InvalidZoneBounds,
    /// A zone's multiplier must be at least 10000 basis points (1x).
    InvalidMultiplier,
    /// The bet was already resolved to a terminal outcome.
    BetAlreadyResolved,
    /// Overflow or underflow in the settlement arithmetic.
    MathOverflow,
    /// The vault cannot cover the computed payout.
    InsufficientVault,
}

/// Everything an operation can fail with: a program error, or one of the
/// platform-level conditions (authorization, record existence, funding of
/// the stake transfer).
#[derive(Clone, Copy, PartialEq, Eq, Structural, Debug)]
pub enum LedgerError {
    /// An error raised by the program's own validation or arithmetic.
    Program(SolamaError),
    /// The caller is not the game's authority.
    AccessDenied,
    /// A record already exists at the derived address.
    RecordAlreadyExists,
    /// No record exists at the derived address, or its stored bump does not
    /// match the one derived from the stated seeds.
    RecordNotFound,
    /// The paying account cannot fund the requested transfer.
    InsufficientFunds,
}

} // verus!
