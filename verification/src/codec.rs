use vstd::bytes::{
    lemma_auto_spec_u16_to_from_le_bytes, lemma_auto_spec_u32_to_from_le_bytes,
    lemma_auto_spec_u64_to_from_le_bytes, spec_u16_from_le_bytes, spec_u16_to_le_bytes,
    spec_u32_from_le_bytes, spec_u32_to_le_bytes, spec_u64_from_le_bytes, spec_u64_to_le_bytes,
    u16_from_le_bytes, u16_to_le_bytes, u32_from_le_bytes, u32_to_le_bytes, u64_from_le_bytes,
    u64_to_le_bytes,
};
use vstd::prelude::*;
use vstd::slice::{slice_index_get, slice_subrange};

use crate::state::{Bet, BetStatus, BetView, Zone};

verus! {

// The persisted record layout of a bet, little-endian throughout: player,
// round, amount (8 bytes each), zone count (4 bytes), then each zone as
// two 64-bit bounds and a 16-bit multiplier, then the status byte, payout,
// settled price and timestamp (8 bytes each), and the bump byte. The zone
// list is bounded by 2, so the encoded size is at most 90 bytes.

/// The little-endian bytes of one zone.
pub open spec fn spec_encode_zone(z: Zone) -> Seq<u8> {
    spec_u64_to_le_bytes(z.lower_bound) + spec_u64_to_le_bytes(z.upper_bound)
        + spec_u16_to_le_bytes(z.multiplier_bps)
}

/// The zones' bytes, in stored order.
pub open spec fn spec_encode_zones(zs: Seq<Zone>) -> Seq<u8>
    decreases zs.len(),
{
    if zs.len() == 0 {
        Seq::empty()
    } else {
        spec_encode_zone(zs[0]) + spec_encode_zones(zs.drop_first())
    }
}

/// The tag byte a status is stored as.
pub open spec fn spec_status_byte(st: BetStatus) -> u8 {
    match st {
        BetStatus::Pending => 0,
        BetStatus::Won => 1,
        BetStatus::Lost => 2,
        BetStatus::Cancelled => 3,
    }
}

/// The status a tag byte stands for; an unknown tag is rejected.
pub open spec fn spec_decode_status(b: u8) -> Option<BetStatus> {
    if b == 0 {
        Some(BetStatus::Pending)
    } else if b == 1 {
        Some(BetStatus::Won)
    } else if b == 2 {
        Some(BetStatus::Lost)
    } else if b == 3 {
        Some(BetStatus::Cancelled)
    } else {
        None
    }
}

/// The full encoded record of a bet.
pub open spec fn spec_encode_bet(b: BetView) -> Seq<u8> {
    spec_u64_to_le_bytes(b.player) + spec_u64_to_le_bytes(b.round_id) + spec_u64_to_le_bytes(
        b.amount,
    ) + spec_u32_to_le_bytes(b.zones.len() as u32) + spec_encode_zones(b.zones) + seq![
        spec_status_byte(b.status),
    ] + spec_u64_to_le_bytes(b.payout) + spec_u64_to_le_bytes(b.settled_price)
        + spec_u64_to_le_bytes(b.timestamp as u64) + seq![b.bump]
}

/// The zone 18 bytes stand for.
pub open spec fn spec_decode_zone(s: Seq<u8>) -> Zone {
    Zone {
        lower_bound: spec_u64_from_le_bytes(s.subrange(0, 8)),
        upper_bound: spec_u64_from_le_bytes(s.subrange(8, 16)),
        multiplier_bps: spec_u16_from_le_bytes(s.subrange(16, 18)),
    }
}

/// The bet an encoded record stands for; rejects a wrong length, a zone
/// count above the bound of 2, or an unknown status byte.
pub open spec fn spec_decode_bet(s: Seq<u8>) -> Option<BetView> {
    if s.len() < 28 {
        None
    } else {
        let n = spec_u32_from_le_bytes(s.subrange(24, 28)) as int;
        if n > 2 {
            None
        } else if s.len() != 54 + 18 * n {
            None
        } else {
            let zones = if n == 0 {
                Seq::<Zone>::empty()
            } else if n == 1 {
                seq![spec_decode_zone(s.subrange(28, 46))]
            } else {
                seq![
                    spec_decode_zone(s.subrange(28, 46)),
                    spec_decode_zone(s.subrange(46, 64)),
                ]
            };
            let t = 28 + 18 * n;
            match spec_decode_status(s[t]) {
                None => None,
                Some(st) => Some(
                    BetView {
                        player: spec_u64_from_le_bytes(s.subrange(0, 8)),
                        round_id: spec_u64_from_le_bytes(s.subrange(8, 16)),
                        amount: spec_u64_from_le_bytes(s.subrange(16, 24)),
                        zones,
                        status: st,
                        payout: spec_u64_from_le_bytes(s.subrange(t + 1, t + 9)),
                        settled_price: spec_u64_from_le_bytes(s.subrange(t + 9, t + 17)),
                        timestamp: spec_u64_from_le_bytes(s.subrange(t + 17, t + 25)) as i64,
                        bump: s[t + 25],
                    },
                ),
            }
        }
    }
}

/// The tag byte a status is stored as.
pub fn status_byte(st: &BetStatus) -> (b: u8)
    ensures
        b == spec_status_byte(*st),
{
    match st {
        BetStatus::Pending => 0,
        BetStatus::Won => 1,
        BetStatus::Lost => 2,
        BetStatus::Cancelled => 3,
    }
}

/// The status a tag byte stands for.
pub fn decode_status(b: u8) -> (r: Option<BetStatus>)
    ensures
        r == spec_decode_status(b),
{
    if b == 0 {
        Some(BetStatus::Pending)
    } else if b == 1 {
        Some(BetStatus::Won)
    } else if b == 2 {
        Some(BetStatus::Lost)
    } else if b == 3 {
        Some(BetStatus::Cancelled)
    } else {
        None
    }
}

/// The zone list encoder, stated for the bounded list: nothing, one zone,
/// or two zones in stored order.
proof fn lemma_encode_zones_small(zs: Seq<Zone>)
    requires
        zs.len() <= 2,
    ensures
        zs.len() == 0 ==> spec_encode_zones(zs) == Seq::<u8>::empty(),
        zs.len() == 1 ==> spec_encode_zones(zs) == spec_encode_zone(zs[0]),
        zs.len() == 2 ==> spec_encode_zones(zs) == spec_encode_zone(zs[0]) + spec_encode_zone(
            zs[1],
        ),
{
    reveal_with_fuel(spec_encode_zones, 3);
    if zs.len() == 1 {
        assert(zs.drop_first().len() == 0);
        assert(spec_encode_zones(zs.drop_first()) == Seq::<u8>::empty());
        assert(spec_encode_zone(zs[0]) + Seq::<u8>::empty() =~= spec_encode_zone(zs[0]));
    } else if zs.len() == 2 {
        let d = zs.drop_first();
        assert(d[0] == zs[1]);
        assert(d.drop_first().len() == 0);
        assert(spec_encode_zones(d.drop_first()) == Seq::<u8>::empty());
        assert(spec_encode_zone(d[0]) + Seq::<u8>::empty() =~= spec_encode_zone(d[0]));
    }
}

fn encode_zone_into(out: &mut Vec<u8>, z: &Zone)
    ensures
        final(out)@ == old(out)@ + spec_encode_zone(*z),
{
    let mut lo = u64_to_le_bytes(z.lower_bound);
    out.append(&mut lo);
    let mut hi = u64_to_le_bytes(z.upper_bound);
    out.append(&mut hi);
    let mut m = u16_to_le_bytes(z.multiplier_bps);
    out.append(&mut m);
    proof {
        assert(out@ =~= old(out)@ + spec_encode_zone(*z));
    }
}

/// Serializes a bet into its persisted record layout.
pub fn encode_bet(b: &Bet) -> (out: Vec<u8>)
    requires
        b.zones@.len() <= 2,
    ensures
        out@ == spec_encode_bet(b@),
{
    let mut out: Vec<u8> = Vec::new();
    let mut tmp = u64_to_le_bytes(b.player);
    out.append(&mut tmp);
    let mut tmp = u64_to_le_bytes(b.round_id);
    out.append(&mut tmp);
    let mut tmp = u64_to_le_bytes(b.amount);
    out.append(&mut tmp);
    let n: u32 = b.zones.len() as u32;
    let mut tmp = u32_to_le_bytes(n);
    out.append(&mut tmp);
    if b.zones.len() >= 1 {
        encode_zone_into(&mut out, &b.zones[0]);
    }
    if b.zones.len() == 2 {
        encode_zone_into(&mut out, &b.zones[1]);
    }
    out.push(status_byte(&b.status));
    let mut tmp = u64_to_le_bytes(b.payout);
    out.append(&mut tmp);
    let mut tmp = u64_to_le_bytes(b.settled_price);
    out.append(&mut tmp);
    let mut tmp = u64_to_le_bytes(b.timestamp as u64);
    out.append(&mut tmp);
    out.push(b.bump);
    proof {
        lemma_encode_zones_small(b.zones@);
        assert(out@ =~= spec_encode_bet(b@));
    }
    out
}

fn decode_zone(s: &[u8]) -> (z: Zone)
    requires
        s@.len() == 18,
    ensures
        z == spec_decode_zone(s@),
{
    Zone {
        lower_bound: u64_from_le_bytes(slice_subrange(s, 0, 8)),
        upper_bound: u64_from_le_bytes(slice_subrange(s, 8, 16)),
        multiplier_bps: u16_from_le_bytes(slice_subrange(s, 16, 18)),
    }
}

/// Deserializes a bet from its persisted record layout; returns `None`
/// exactly on the byte strings the layout rejects.
pub fn decode_bet(s: &[u8]) -> (r: Option<Bet>)
    ensures
        match r {
            Some(b) => spec_decode_bet(s@) == Some(b@),
            None => spec_decode_bet(s@) is None,
        },
{
    if s.len() < 28 {
        return None;
    }
    let n32 = u32_from_le_bytes(slice_subrange(s, 24, 28));
    if n32 > 2 {
        return None;
    }
    let n: usize = n32 as usize;
    if s.len() != 54 + 18 * n {
        return None;
    }
    let mut zones: Vec<Zone> = Vec::new();
    if n >= 1 {
        zones.push(decode_zone(slice_subrange(s, 28, 46)));
    }
    if n == 2 {
        zones.push(decode_zone(slice_subrange(s, 46, 64)));
    }
    let t: usize = 28 + 18 * n;
    let st = match decode_status(*slice_index_get(s, t)) {
        Some(st) => st,
        None => {
            return None;
        },
    };
    let payout = u64_from_le_bytes(slice_subrange(s, t + 1, t + 9));
    let settled_price = u64_from_le_bytes(slice_subrange(s, t + 9, t + 17));
    let ts = u64_from_le_bytes(slice_subrange(s, t + 17, t + 25));
    let bump = *slice_index_get(s, t + 25);
    let b = Bet {
        player: u64_from_le_bytes(slice_subrange(s, 0, 8)),
        round_id: u64_from_le_bytes(slice_subrange(s, 8, 16)),
        amount: u64_from_le_bytes(slice_subrange(s, 16, 24)),
        zones,
        status: st,
        payout,
        settled_price,
        timestamp: ts as i64,
        bump,
    };
    proof {
        if n == 0 {
            assert(b.zones@ =~= Seq::<Zone>::empty());
        } else if n == 1 {
            assert(b.zones@ =~= seq![spec_decode_zone(s@.subrange(28, 46))]);
        } else {
            assert(b.zones@ =~= seq![
                spec_decode_zone(s@.subrange(28, 46)),
                spec_decode_zone(s@.subrange(46, 64)),
            ]);
        }
    }
    Some(b)
}

/// Decoding a zone's encoding gives the zone back.
proof fn lemma_zone_round_trip(z: Zone)
    ensures
        spec_decode_zone(spec_encode_zone(z)) == z,
{
    lemma_auto_spec_u64_to_from_le_bytes();
    lemma_auto_spec_u16_to_from_le_bytes();
    let e = spec_encode_zone(z);
    assert(e.subrange(0, 8) =~= spec_u64_to_le_bytes(z.lower_bound));
    assert(e.subrange(8, 16) =~= spec_u64_to_le_bytes(z.upper_bound));
    assert(e.subrange(16, 18) =~= spec_u16_to_le_bytes(z.multiplier_bps));
}

/// Round trip: serializing a bet and deserializing the bytes reproduces
/// every field, including the zones in their stored order.
pub proof fn lemma_bet_round_trip(b: BetView)
    requires
        b.zones.len() <= 2,
    ensures
        spec_decode_bet(spec_encode_bet(b)) == Some(b),
{
    lemma_auto_spec_u64_to_from_le_bytes();
    lemma_auto_spec_u32_to_from_le_bytes();
    lemma_auto_spec_u16_to_from_le_bytes();
    lemma_encode_zones_small(b.zones);
    let e = spec_encode_bet(b);
    let n = b.zones.len() as int;
    assert(spec_encode_zones(b.zones).len() == 18 * n);
    assert(e.len() == 54 + 18 * n);
    assert(e.subrange(24, 28) =~= spec_u32_to_le_bytes(b.zones.len() as u32));
    assert(spec_u32_from_le_bytes(e.subrange(24, 28)) == n);
    let t = 28 + 18 * n;
    assert(e.subrange(0, 8) =~= spec_u64_to_le_bytes(b.player));
    assert(e.subrange(8, 16) =~= spec_u64_to_le_bytes(b.round_id));
    assert(e.subrange(16, 24) =~= spec_u64_to_le_bytes(b.amount));
    if n == 1 {
        assert(e.subrange(28, 46) =~= spec_encode_zone(b.zones[0]));
        lemma_zone_round_trip(b.zones[0]);
        assert(seq![spec_decode_zone(e.subrange(28, 46))] =~= b.zones);
    } else if n == 2 {
        assert(e.subrange(28, 46) =~= spec_encode_zone(b.zones[0]));
        assert(e.subrange(46, 64) =~= spec_encode_zone(b.zones[1]));
        lemma_zone_round_trip(b.zones[0]);
        lemma_zone_round_trip(b.zones[1]);
        assert(seq![
            spec_decode_zone(e.subrange(28, 46)),
            spec_decode_zone(e.subrange(46, 64)),
        ] =~= b.zones);
    } else {
        assert(Seq::<Zone>::empty() =~= b.zones);
    }
    assert(e[t] == spec_status_byte(b.status));
    assert(spec_decode_status(spec_status_byte(b.status)) == Some(b.status));
    assert(e.subrange(t + 1, t + 9) =~= spec_u64_to_le_bytes(b.payout));
    assert(e.subrange(t + 9, t + 17) =~= spec_u64_to_le_bytes(b.settled_price));
    assert(e.subrange(t + 17, t + 25) =~= spec_u64_to_le_bytes(b.timestamp as u64));
    assert(e[t + 25] == b.bump);
    let ts = b.timestamp;
    assert((ts as u64) as i64 == ts) by (bit_vector);
}

} // verus!
