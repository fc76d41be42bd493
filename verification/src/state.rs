use vstd::prelude::*;

use crate::keys::{spec_bump, spec_vault_key, RecordKey, BET_TAG, GAME_TAG, VAULT_TAG};

verus! {

/// Basis-point denominator: 10000 basis points are 100%.
pub const BPS_DENOM: u64 = 10_000;

/// The smallest multiplier a zone may carry: 10000 basis points, i.e. 1x.
pub const MIN_MULTIPLIER_BPS: u16 = 10_000;

/// A price range a bet can cover, with the payout multiplier owed when the
/// settled price falls inside it (bounds inclusive).
#[derive(Clone, Copy, PartialEq, Eq, Structural, Debug)]
pub struct Zone {
    pub lower_bound: u64,
    pub upper_bound: u64,
    pub multiplier_bps: u16,
}

/// A single zone is well-formed when its bounds are ordered and its
/// multiplier is at least 1x.
pub open spec fn zone_wf(z: Zone) -> bool {
    &&& z.lower_bound < z.upper_bound
    &&& z.multiplier_bps >= MIN_MULTIPLIER_BPS
}

/// A bet's zone list is well-formed when it holds 1 or 2 zones, each
/// well-formed. Zones may overlap; their stored order is significant.
pub open spec fn zones_wf(zs: Seq<Zone>) -> bool {
    &&& 1 <= zs.len() <= 2
    &&& forall|i: int| 0 <= i < zs.len() ==> zone_wf(#[trigger] zs[i])
}

/// The lifecycle of a bet. `Pending` is the initial state; `resolve` moves
/// it exactly once to `Won` or `Lost`, after which it is immutable.
#[derive(Clone, Copy, PartialEq, Eq, Structural, Debug)]
pub enum BetStatus {
    Pending,
    Won,
    Lost,
    /// Reserved for a future cancellation operation; no defined operation
    /// produces it, and the ledger invariant proves it never occurs.
    Cancelled,
}

/// One game per authority: its configuration and the address of its paired
/// escrow vault. `fee_bps` is stored verbatim at creation and never changes.
#[derive(Clone, Copy, PartialEq, Eq, Structural, Debug)]
pub struct GameState {
    pub authority: u64,
    pub vault: RecordKey,
    pub fee_bps: u16,
    pub total_rounds: u64,
    pub bump: u8,
    pub vault_bump: u8,
}

/// A game record is internally consistent when its stored vault address and
/// both disambiguation bytes match what its seeds derive.
pub open spec fn game_record_wf(g: GameState) -> bool {
    &&& g.bump == spec_bump(GAME_TAG, g.authority, 0)
    &&& g.vault == spec_vault_key(g.authority)
    &&& g.vault_bump == spec_bump(VAULT_TAG, g.authority, 0)
}

/// One bet per (player, round): the wager terms fixed at placement and the
/// outcome recorded at resolution.
#[derive(PartialEq, Eq, Debug)]
pub struct Bet {
    pub player: u64,
    pub round_id: u64,
    pub amount: u64,
    pub zones: Vec<Zone>,
    pub status: BetStatus,
    pub payout: u64,
    pub settled_price: u64,
    pub timestamp: i64,
    pub bump: u8,
}

/// The mathematical value of a bet: the same fields, with the zone list as
/// a sequence.
pub struct BetView {
    pub player: u64,
    pub round_id: u64,
    pub amount: u64,
    pub zones: Seq<Zone>,
    pub status: BetStatus,
    pub payout: u64,
    pub settled_price: u64,
    pub timestamp: i64,
    pub bump: u8,
}

impl View for Bet {
    type V = BetView;

    open spec fn view(&self) -> BetView {
        BetView {
            player: self.player,
            round_id: self.round_id,
            amount: self.amount,
            zones: self.zones@,
            status: self.status,
            payout: self.payout,
            settled_price: self.settled_price,
            timestamp: self.timestamp,
            bump: self.bump,
        }
    }
}

/// A bet record is well-formed when its terms passed placement validation
/// and its stored bump matches its seeds. The `Cancelled` status never
/// occurs: no operation produces it.
pub open spec fn bet_record_wf(b: Bet) -> bool {
    &&& b.amount > 0
    &&& zones_wf(b.zones@)
    &&& b.bump == spec_bump(BET_TAG, b.player, b.round_id)
    &&& b.status != BetStatus::Cancelled
}

} // verus!
