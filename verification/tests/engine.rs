use solama::errors::{LedgerError, SolamaError};
use solama::ledger::{
    initialize, place_bet, resolve_bet, vault_balance, wallet_balance, withdraw_fees, Initialize,
    Ledger, PlaceBet, ResolveBet, WithdrawFees,
};
use solama::state::{BetStatus, Zone};

const AUTH: u64 = 7;
const PLAYER: u64 = 42;

fn zone(lower: u64, upper: u64, mult: u16) -> Zone {
    Zone { lower_bound: lower, upper_bound: upper, multiplier_bps: mult }
}

/// A ledger with one game (fee 500 bps), a funded player, and a placed bet.
fn setup(fee_bps: u16, stake: u64, zones: Vec<Zone>) -> Ledger {
    let mut l = Ledger::new();
    l.fund(PLAYER, 1_000_000).unwrap();
    initialize(&mut l, Initialize { authority: AUTH }, fee_bps).unwrap();
    place_bet(&mut l, PlaceBet { game_authority: AUTH, player: PLAYER }, 1, stake, zones).unwrap();
    l
}

#[test]
fn place_moves_stake_into_vault() {
    let mut l = Ledger::new();
    l.fund(PLAYER, 5_000).unwrap();
    initialize(&mut l, Initialize { authority: AUTH }, 500).unwrap();
    let before = wallet_balance(&l.wallets, PLAYER);
    let zones = vec![zone(10, 20, 10_000)];
    place_bet(&mut l, PlaceBet { game_authority: AUTH, player: PLAYER }, 9, 1_200, zones).unwrap();
    assert_eq!(wallet_balance(&l.wallets, PLAYER), before - 1_200);
    assert_eq!(vault_balance(&l.vaults, AUTH), 1_200);
    assert_eq!(l.bets.len(), 1);
    assert_eq!(l.bets[0].amount, 1_200);
    assert!(l.bets[0].status == BetStatus::Pending);
    assert_eq!(l.bets[0].payout, 0);
}

#[test]
fn place_rejects_zero_amount() {
    let mut l = Ledger::new();
    l.fund(PLAYER, 5_000).unwrap();
    initialize(&mut l, Initialize { authority: AUTH }, 500).unwrap();
    let r = place_bet(
        &mut l,
        PlaceBet { game_authority: AUTH, player: PLAYER },
        1,
        0,
        vec![zone(10, 20, 10_000)],
    );
    assert_eq!(r, Err(LedgerError::Program(SolamaError::InvalidAmount)));
    assert_eq!(l.bets.len(), 0);
}

#[test]
fn place_rejects_bad_zone_count() {
    let mut l = Ledger::new();
    l.fund(PLAYER, 5_000).unwrap();
    initialize(&mut l, Initialize { authority: AUTH }, 500).unwrap();
    let r = place_bet(&mut l, PlaceBet { game_authority: AUTH, player: PLAYER }, 1, 100, vec![]);
    assert_eq!(r, Err(LedgerError::Program(SolamaError::InvalidZoneCount)));
    let three = vec![zone(1, 2, 10_000), zone(3, 4, 10_000), zone(5, 6, 10_000)];
    let r = place_bet(&mut l, PlaceBet { game_authority: AUTH, player: PLAYER }, 1, 100, three);
    assert_eq!(r, Err(LedgerError::Program(SolamaError::InvalidZoneCount)));
}

#[test]
fn place_rejects_bad_zone_bounds() {
    let mut l = Ledger::new();
    l.fund(PLAYER, 5_000).unwrap();
    initialize(&mut l, Initialize { authority: AUTH }, 500).unwrap();
    let r = place_bet(
        &mut l,
        PlaceBet { game_authority: AUTH, player: PLAYER },
        1,
        100,
        vec![zone(20, 20, 10_000)],
    );
    assert_eq!(r, Err(LedgerError::Program(SolamaError::InvalidZoneBounds)));
}

#[test]
fn place_rejects_low_multiplier() {
    let mut l = Ledger::new();
    l.fund(PLAYER, 5_000).unwrap();
    initialize(&mut l, Initialize { authority: AUTH }, 500).unwrap();
    let r = place_bet(
        &mut l,
        PlaceBet { game_authority: AUTH, player: PLAYER },
        1,
        100,
        vec![zone(10, 20, 9_999)],
    );
    assert_eq!(r, Err(LedgerError::Program(SolamaError::InvalidMultiplier)));
}

#[test]
fn place_rejects_reused_round() {
    let mut l = setup(500, 1_000, vec![zone(10, 20, 20_000)]);
    let r = place_bet(
        &mut l,
        PlaceBet { game_authority: AUTH, player: PLAYER },
        1,
        100,
        vec![zone(10, 20, 10_000)],
    );
    assert_eq!(r, Err(LedgerError::RecordAlreadyExists));
    assert_eq!(l.bets.len(), 1);
}

#[test]
fn place_rejects_unfunded_player() {
    let mut l = Ledger::new();
    initialize(&mut l, Initialize { authority: AUTH }, 500).unwrap();
    let r = place_bet(
        &mut l,
        PlaceBet { game_authority: AUTH, player: PLAYER },
        1,
        100,
        vec![zone(10, 20, 10_000)],
    );
    assert_eq!(r, Err(LedgerError::InsufficientFunds));
}

#[test]
fn place_rejects_missing_game() {
    let mut l = Ledger::new();
    l.fund(PLAYER, 5_000).unwrap();
    let r = place_bet(
        &mut l,
        PlaceBet { game_authority: AUTH, player: PLAYER },
        1,
        100,
        vec![zone(10, 20, 10_000)],
    );
    assert_eq!(r, Err(LedgerError::RecordNotFound));
}

#[test]
fn initialize_is_not_repeatable() {
    let mut l = Ledger::new();
    initialize(&mut l, Initialize { authority: AUTH }, 500).unwrap();
    assert_eq!(l.games[0].fee_bps, 500);
    let r = initialize(&mut l, Initialize { authority: AUTH }, 9_999);
    assert_eq!(r, Err(LedgerError::RecordAlreadyExists));
    // The stored configuration is never overwritten.
    assert_eq!(l.games.len(), 1);
    assert_eq!(l.games[0].fee_bps, 500);
    assert_eq!(l.vaults.len(), 1);
}

#[test]
fn resolve_pays_net_of_fee() {
    // amount 1000, multiplier 20000 (2x), fee 500 (5%):
    // gross 2000, fee 100, net 1900.
    let mut l = setup(500, 1_000, vec![zone(100, 200, 20_000)]);
    // Top the vault up through a second player's stake so it can cover the
    // payout.
    l.fund(77, 2_000).unwrap();
    place_bet(&mut l, PlaceBet { game_authority: AUTH, player: 77 }, 1, 2_000, vec![
        zone(1, 2, 10_000),
    ])
    .unwrap();
    let player_before = wallet_balance(&l.wallets, PLAYER);
    let vault_before = vault_balance(&l.vaults, AUTH);
    assert_eq!(vault_before, 3_000);
    let ctx = ResolveBet { game_authority: AUTH, authority: AUTH, player: PLAYER, round_id: 1 };
    resolve_bet(&mut l, ctx, 150).unwrap();
    assert_eq!(wallet_balance(&l.wallets, PLAYER), player_before + 1_900);
    assert_eq!(vault_balance(&l.vaults, AUTH), vault_before - 1_900);
    assert!(l.bets[0].status == BetStatus::Won);
    assert_eq!(l.bets[0].payout, 1_900);
    assert_eq!(l.bets[0].settled_price, 150);
}

#[test]
fn resolve_uses_first_matching_zone() {
    // Both zones cover the settled price; the first one decides.
    let zones = vec![zone(100, 200, 20_000), zone(50, 300, 40_000)];
    let mut l = setup(0, 1_000, zones);
    l.fund(999, 10_000).unwrap();
    place_bet(&mut l, PlaceBet { game_authority: AUTH, player: 999 }, 5, 3_000, vec![
        zone(1, 2, 10_000),
    ])
    .unwrap();
    let ctx = ResolveBet { game_authority: AUTH, authority: AUTH, player: PLAYER, round_id: 1 };
    resolve_bet(&mut l, ctx, 150).unwrap();
    // First zone's 2x, not the second zone's 4x.
    assert_eq!(l.bets[0].payout, 2_000);
    assert!(l.bets[0].status == BetStatus::Won);
}

#[test]
fn resolve_no_match_loses_without_movement() {
    let mut l = setup(500, 1_000, vec![zone(100, 200, 20_000), zone(300, 400, 30_000)]);
    let vault_before = vault_balance(&l.vaults, AUTH);
    let player_before = wallet_balance(&l.wallets, PLAYER);
    let ctx = ResolveBet { game_authority: AUTH, authority: AUTH, player: PLAYER, round_id: 1 };
    resolve_bet(&mut l, ctx, 250).unwrap();
    assert!(l.bets[0].status == BetStatus::Lost);
    assert_eq!(l.bets[0].payout, 0);
    assert_eq!(l.bets[0].settled_price, 250);
    assert_eq!(vault_balance(&l.vaults, AUTH), vault_before);
    assert_eq!(wallet_balance(&l.wallets, PLAYER), player_before);
}

#[test]
fn resolve_underfunded_vault_keeps_bet_pending() {
    // Vault holds only the 1000 stake; the computed net of 1900 exceeds it.
    let mut l = setup(500, 1_000, vec![zone(100, 200, 20_000)]);
    assert_eq!(vault_balance(&l.vaults, AUTH), 1_000);
    let player_before = wallet_balance(&l.wallets, PLAYER);
    let ctx = ResolveBet { game_authority: AUTH, authority: AUTH, player: PLAYER, round_id: 1 };
    let r = resolve_bet(&mut l, ctx, 150);
    assert_eq!(r, Err(LedgerError::Program(SolamaError::InsufficientVault)));
    assert!(l.bets[0].status == BetStatus::Pending);
    assert_eq!(vault_balance(&l.vaults, AUTH), 1_000);
    assert_eq!(wallet_balance(&l.wallets, PLAYER), player_before);
}

#[test]
fn resolve_is_terminal() {
    let mut l = setup(500, 1_000, vec![zone(100, 200, 20_000)]);
    let ctx = ResolveBet { game_authority: AUTH, authority: AUTH, player: PLAYER, round_id: 1 };
    resolve_bet(&mut l, ctx, 999).unwrap();
    assert!(l.bets[0].status == BetStatus::Lost);
    let r = resolve_bet(&mut l, ctx, 150);
    assert_eq!(r, Err(LedgerError::Program(SolamaError::BetAlreadyResolved)));
    // A second attempt, at any price, alters neither payout nor status.
    assert!(l.bets[0].status == BetStatus::Lost);
    assert_eq!(l.bets[0].payout, 0);
    assert_eq!(l.bets[0].settled_price, 999);
}

#[test]
fn resolve_requires_the_authority() {
    let mut l = setup(500, 1_000, vec![zone(100, 200, 20_000)]);
    let ctx = ResolveBet { game_authority: AUTH, authority: 1234, player: PLAYER, round_id: 1 };
    let r = resolve_bet(&mut l, ctx, 150);
    assert_eq!(r, Err(LedgerError::AccessDenied));
    assert!(l.bets[0].status == BetStatus::Pending);
}

#[test]
fn resolve_missing_bet_fails() {
    let mut l = Ledger::new();
    initialize(&mut l, Initialize { authority: AUTH }, 500).unwrap();
    let ctx = ResolveBet { game_authority: AUTH, authority: AUTH, player: PLAYER, round_id: 1 };
    assert_eq!(resolve_bet(&mut l, ctx, 150), Err(LedgerError::RecordNotFound));
}

#[test]
fn resolve_overflow_aborts_and_keeps_bet_pending() {
    // An excessive fee rate (above 10000 bps) makes the fee exceed the
    // gross payout; the checked subtraction aborts and the bet stays
    // pending.
    let mut l = Ledger::new();
    l.fund(PLAYER, 1_000_000).unwrap();
    initialize(&mut l, Initialize { authority: AUTH }, 20_000).unwrap();
    place_bet(&mut l, PlaceBet { game_authority: AUTH, player: PLAYER }, 1, 1_000, vec![
        zone(100, 200, 20_000),
    ])
    .unwrap();
    let ctx = ResolveBet { game_authority: AUTH, authority: AUTH, player: PLAYER, round_id: 1 };
    let r = resolve_bet(&mut l, ctx, 150);
    assert_eq!(r, Err(LedgerError::Program(SolamaError::MathOverflow)));
    assert!(l.bets[0].status == BetStatus::Pending);
}

#[test]
fn withdraw_moves_vault_value_to_authority() {
    let mut l = setup(500, 1_000, vec![zone(100, 200, 20_000)]);
    let auth_before = wallet_balance(&l.wallets, AUTH);
    withdraw_fees(&mut l, WithdrawFees { game_authority: AUTH, authority: AUTH }, 400).unwrap();
    assert_eq!(vault_balance(&l.vaults, AUTH), 600);
    assert_eq!(wallet_balance(&l.wallets, AUTH), auth_before + 400);
}

#[test]
fn withdraw_rejects_zero_and_overdraw() {
    let mut l = setup(500, 1_000, vec![zone(100, 200, 20_000)]);
    let ctx = WithdrawFees { game_authority: AUTH, authority: AUTH };
    assert_eq!(
        withdraw_fees(&mut l, ctx, 0),
        Err(LedgerError::Program(SolamaError::InvalidAmount))
    );
    assert_eq!(
        withdraw_fees(&mut l, ctx, 1_001),
        Err(LedgerError::Program(SolamaError::InsufficientVault))
    );
    assert_eq!(vault_balance(&l.vaults, AUTH), 1_000);
}

#[test]
fn withdraw_requires_the_authority() {
    let mut l = setup(500, 1_000, vec![zone(100, 200, 20_000)]);
    let ctx = WithdrawFees { game_authority: AUTH, authority: PLAYER };
    assert_eq!(withdraw_fees(&mut l, ctx, 100), Err(LedgerError::AccessDenied));
}

#[test]
fn bets_are_stamped_with_the_clock() {
    let mut l = Ledger::new();
    l.fund(PLAYER, 5_000).unwrap();
    initialize(&mut l, Initialize { authority: AUTH }, 500).unwrap();
    l.set_clock(1_700_000_000);
    place_bet(&mut l, PlaceBet { game_authority: AUTH, player: PLAYER }, 1, 100, vec![
        zone(10, 20, 10_000),
    ])
    .unwrap();
    assert_eq!(l.bets[0].timestamp, 1_700_000_000);
}

fn system_total(l: &Ledger) -> u128 {
    let w: u128 = l.wallets.iter().map(|w| w.balance as u128).sum();
    let v: u128 = l.vaults.iter().map(|v| v.balance as u128).sum();
    w + v
}

#[test]
fn value_is_conserved_across_operations() {
    let mut l = Ledger::new();
    l.fund(PLAYER, 1_000_000).unwrap();
    l.fund(77, 50_000).unwrap();
    let total = system_total(&l);
    initialize(&mut l, Initialize { authority: AUTH }, 500).unwrap();
    assert_eq!(system_total(&l), total);
    place_bet(&mut l, PlaceBet { game_authority: AUTH, player: PLAYER }, 1, 1_000, vec![
        zone(100, 200, 10_000),
    ])
    .unwrap();
    assert_eq!(system_total(&l), total);
    place_bet(&mut l, PlaceBet { game_authority: AUTH, player: 77 }, 1, 2_000, vec![
        zone(1, 2, 10_000),
    ])
    .unwrap();
    let ctx = ResolveBet { game_authority: AUTH, authority: AUTH, player: PLAYER, round_id: 1 };
    resolve_bet(&mut l, ctx, 150).unwrap();
    assert_eq!(system_total(&l), total);
    withdraw_fees(&mut l, WithdrawFees { game_authority: AUTH, authority: AUTH }, 500).unwrap();
    assert_eq!(system_total(&l), total);
}

#[test]
fn games_are_isolated() {
    let other_auth: u64 = 8;
    let other_player: u64 = 43;
    let mut l = Ledger::new();
    l.fund(PLAYER, 10_000).unwrap();
    l.fund(other_player, 10_000).unwrap();
    initialize(&mut l, Initialize { authority: AUTH }, 500).unwrap();
    initialize(&mut l, Initialize { authority: other_auth }, 0).unwrap();
    place_bet(&mut l, PlaceBet { game_authority: AUTH, player: PLAYER }, 1, 1_000, vec![
        zone(100, 200, 10_000),
    ])
    .unwrap();
    place_bet(&mut l, PlaceBet { game_authority: other_auth, player: other_player }, 1, 2_000, vec![
        zone(100, 200, 10_000),
    ])
    .unwrap();
    assert_eq!(vault_balance(&l.vaults, AUTH), 1_000);
    assert_eq!(vault_balance(&l.vaults, other_auth), 2_000);
    let ctx = ResolveBet { game_authority: AUTH, authority: AUTH, player: PLAYER, round_id: 1 };
    resolve_bet(&mut l, ctx, 150).unwrap();
    // The second game's vault and bet are untouched.
    assert_eq!(vault_balance(&l.vaults, other_auth), 2_000);
    let other_bet = l.bets.iter().find(|b| b.player == other_player).unwrap();
    assert!(other_bet.status == BetStatus::Pending);
}

#[test]
fn fund_rejects_overflowing_the_system() {
    let mut l = Ledger::new();
    l.fund(1, u64::MAX).unwrap();
    assert_eq!(l.fund(2, 1), Err(LedgerError::InsufficientFunds));
    assert_eq!(wallet_balance(&l.wallets, 2), 0);
}

#[test]
fn unknown_identities_hold_zero() {
    let l = Ledger::new();
    assert_eq!(wallet_balance(&l.wallets, 5), 0);
    assert_eq!(vault_balance(&l.vaults, 5), 0);
}
