use vstd::prelude::*;

use crate::errors::SolamaError;
use crate::state::{Zone, BPS_DENOM};

verus! {

/// Whether the settled price falls inside the zone (bounds inclusive).
pub open spec fn spec_in_zone(z: Zone, price: u64) -> bool {
    z.lower_bound <= price && price <= z.upper_bound
}

/// Whether the settled price falls inside the zone.
pub fn in_zone(z: &Zone, price: u64) -> (r: bool)
    ensures
        r == spec_in_zone(*z, price),
{
    z.lower_bound <= price && price <= z.upper_bound
}

/// The first zone, in stored order, that contains the price. This is a
/// deliberate first-match policy: once a zone matches, later zones are
/// never considered, even if they also contain the price.
pub open spec fn spec_first_match(zs: Seq<Zone>, price: u64) -> Option<Zone>
    decreases zs.len(),
{
    if zs.len() == 0 {
        None
    } else if spec_in_zone(zs[0], price) {
        Some(zs[0])
    } else {
        spec_first_match(zs.drop_first(), price)
    }
}

proof fn lemma_first_match_step(zs: Seq<Zone>, price: u64, i: int)
    requires
        0 <= i < zs.len(),
        !spec_in_zone(zs[i], price),
    ensures
        spec_first_match(zs.skip(i), price) == spec_first_match(zs.skip(i + 1), price),
{
    assert(zs.skip(i)[0] == zs[i]);
    assert(zs.skip(i).drop_first() =~= zs.skip(i + 1));
}

/// Scans the zones in stored order and returns the first one containing
/// the price, or `None` when the price lies outside every zone.
pub fn first_match(zones: &Vec<Zone>, price: u64) -> (r: Option<Zone>)
    ensures
        r == spec_first_match(zones@, price),
{
    let mut i: usize = 0;
    proof {
        assert(zones@.skip(0) =~= zones@);
    }
    while i < zones.len()
        invariant
            i <= zones@.len(),
            spec_first_match(zones@, price) == spec_first_match(zones@.skip(i as int), price),
        decreases zones@.len() - i,
    {
        if in_zone(&zones[i], price) {
            proof {
                assert(zones@.skip(i as int)[0] == zones@[i as int]);
            }
            return Some(zones[i]);
        }
        proof {
            lemma_first_match_step(zones@, price, i as int);
        }
        i += 1;
    }
    proof {
        assert(zones@.skip(i as int).len() == 0);
    }
    None
}

/// The first-match policy, stated for a two-zone bet: when both zones
/// contain the settled price, the first zone is the one selected, so its
/// multiplier is the one used.
pub proof fn lemma_first_match_prefers_first(z1: Zone, z2: Zone, price: u64)
    requires
        spec_in_zone(z1, price),
        spec_in_zone(z2, price),
    ensures
        spec_first_match(seq![z1, z2], price) == Some(z1),
{
    assert(seq![z1, z2][0] == z1);
}

/// The gross payout owed on a matched zone: the stake scaled by the zone's
/// multiplier, in basis points, rounded down.
pub open spec fn spec_gross(amount: u64, multiplier_bps: u16) -> int {
    (amount * multiplier_bps) / (BPS_DENOM as int)
}

/// The protocol fee taken from the gross payout: the game's fee rate, in
/// basis points, rounded down.
pub open spec fn spec_fee(amount: u64, multiplier_bps: u16, fee_bps: u16) -> int {
    (spec_gross(amount, multiplier_bps) * fee_bps) / (BPS_DENOM as int)
}

/// The net payout actually moved to the player.
pub open spec fn spec_net(amount: u64, multiplier_bps: u16, fee_bps: u16) -> int {
    spec_gross(amount, multiplier_bps) - spec_fee(amount, multiplier_bps, fee_bps)
}

/// When the checked settlement arithmetic aborts: the stake-times-multiplier
/// product or the gross-times-fee-rate product exceeds the machine word, or
/// the fee exceeds the gross (which happens when the game was created with
/// a fee rate above 10000 basis points).
pub open spec fn spec_payout_overflows(amount: u64, multiplier_bps: u16, fee_bps: u16) -> bool {
    ||| amount * multiplier_bps > u64::MAX
    ||| spec_gross(amount, multiplier_bps) * fee_bps > u64::MAX
    ||| spec_fee(amount, multiplier_bps, fee_bps) > spec_gross(amount, multiplier_bps)
}

/// The settlement arithmetic: gross payout, protocol fee, and net payout,
/// each rounded down, all overflow-checked. Mirrors the resolution formula:
/// `gross = floor(amount * multiplier / 10000)`,
/// `fee = floor(gross * fee_bps / 10000)`, `net = gross - fee`.
pub fn compute_payout(amount: u64, multiplier_bps: u16, fee_bps: u16) -> (r: Result<
    (u64, u64, u64),
    SolamaError,
>)
    ensures
        spec_payout_overflows(amount, multiplier_bps, fee_bps) ==> r == Err::<
            (u64, u64, u64),
            SolamaError,
        >(SolamaError::MathOverflow),
        !spec_payout_overflows(amount, multiplier_bps, fee_bps) ==> (r matches Ok(t)
            && t.0 == spec_gross(amount, multiplier_bps) && t.1 == spec_fee(
            amount,
            multiplier_bps,
            fee_bps,
        ) && t.2 == spec_net(amount, multiplier_bps, fee_bps)),
{
    let gross: u64 = match amount.checked_mul(multiplier_bps as u64) {
        Some(p) => p / BPS_DENOM,
        None => {
            return Err(SolamaError::MathOverflow);
        },
    };
    let fee: u64 = match gross.checked_mul(fee_bps as u64) {
        Some(p) => p / BPS_DENOM,
        None => {
            return Err(SolamaError::MathOverflow);
        },
    };
    let net: u64 = match gross.checked_sub(fee) {
        Some(n) => n,
        None => {
            return Err(SolamaError::MathOverflow);
        },
    };
    Ok((gross, fee, net))
}

} // verus!
