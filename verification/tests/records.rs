use solama::codec::{decode_bet, encode_bet};
use solama::errors::SolamaError;
use solama::keys::{bet_key, derive_bump, game_key, vault_key, BET_TAG, GAME_TAG, VAULT_TAG};
use solama::math::{compute_payout, first_match, in_zone};
use solama::state::{Bet, BetStatus, Zone};

fn zone(lower: u64, upper: u64, mult: u16) -> Zone {
    Zone { lower_bound: lower, upper_bound: upper, multiplier_bps: mult }
}

fn sample_bet() -> Bet {
    Bet {
        player: 42,
        round_id: 9,
        amount: 1_000,
        zones: vec![zone(100, 200, 20_000), zone(50, 300, 40_000)],
        status: BetStatus::Won,
        payout: 1_900,
        settled_price: 150,
        timestamp: -5, // a pre-epoch timestamp survives the trip too
        bump: 0x2c,
    }
}

#[test]
fn bet_round_trips_with_two_zones() {
    let b = sample_bet();
    let bytes = encode_bet(&b);
    assert_eq!(bytes.len(), 54 + 18 * 2);
    let back = decode_bet(&bytes).unwrap();
    assert_eq!(back, b);
    // Zone order is preserved.
    assert_eq!(back.zones[0], zone(100, 200, 20_000));
    assert_eq!(back.zones[1], zone(50, 300, 40_000));
}

#[test]
fn bet_round_trips_with_one_zone() {
    let mut b = sample_bet();
    b.zones = vec![zone(7, 8, 10_000)];
    b.status = BetStatus::Pending;
    b.timestamp = 1_700_000_000;
    let bytes = encode_bet(&b);
    assert_eq!(bytes.len(), 54 + 18);
    assert_eq!(decode_bet(&bytes).unwrap(), b);
}

#[test]
fn decode_rejects_garbage() {
    // Too short.
    assert!(decode_bet(&[0u8; 10]).is_none());
    // A zone count above the bound.
    let mut bytes = encode_bet(&sample_bet());
    bytes[24] = 3;
    assert!(decode_bet(&bytes).is_none());
    // A wrong length for the declared count.
    let mut bytes = encode_bet(&sample_bet());
    bytes.push(0);
    assert!(decode_bet(&bytes).is_none());
    // An unknown status byte.
    let mut bytes = encode_bet(&sample_bet());
    let t = 28 + 18 * 2;
    bytes[t] = 9;
    assert!(decode_bet(&bytes).is_none());
}

#[test]
fn payout_formula_is_exact() {
    // 1000 * 2x = 2000 gross; 5% fee = 100; net 1900.
    assert_eq!(compute_payout(1_000, 20_000, 500), Ok((2_000, 100, 1_900)));
    // Rounding is downward at both steps.
    assert_eq!(compute_payout(333, 15_000, 100), Ok((499, 4, 495)));
    // A 1x bet with no fee returns the stake.
    assert_eq!(compute_payout(1_000, 10_000, 0), Ok((1_000, 0, 1_000)));
}

#[test]
fn payout_overflow_is_checked() {
    // The stake-times-multiplier product exceeds the machine word.
    assert_eq!(compute_payout(u64::MAX, 20_000, 0), Err(SolamaError::MathOverflow));
    // A fee rate above 10000 bps makes the fee exceed the gross.
    assert_eq!(compute_payout(1_000, 10_000, 20_000), Err(SolamaError::MathOverflow));
}

#[test]
fn first_match_prefers_stored_order() {
    let zones = vec![zone(100, 200, 20_000), zone(50, 300, 40_000)];
    assert_eq!(first_match(&zones, 150), Some(zone(100, 200, 20_000)));
    // Only the second zone covers 250.
    assert_eq!(first_match(&zones, 250), Some(zone(50, 300, 40_000)));
    assert_eq!(first_match(&zones, 301), None);
    // Bounds are inclusive.
    assert!(in_zone(&zone(100, 200, 10_000), 100));
    assert!(in_zone(&zone(100, 200, 10_000), 200));
    assert!(!in_zone(&zone(100, 200, 10_000), 99));
}

#[test]
fn derived_keys_are_deterministic_and_distinct() {
    assert_eq!(game_key(7), game_key(7));
    assert_ne!(game_key(7), game_key(8));
    assert_ne!(game_key(7), vault_key(7));
    assert_ne!(bet_key(7, 1), bet_key(7, 2));
    assert_eq!(derive_bump(GAME_TAG, 7, 0), derive_bump(GAME_TAG, 7, 0));
    assert_ne!(derive_bump(GAME_TAG, 7, 0), derive_bump(VAULT_TAG, 7, 0));
    assert_eq!(bet_key(42, 9).tag, BET_TAG);
}
