use vstd::prelude::*;

use crate::errors::{LedgerError, SolamaError};
use crate::keys::{
    derive_bump, spec_bump, spec_vault_key, vault_key, RecordKey, BET_TAG, GAME_TAG, VAULT_TAG,
};
use crate::math::{
    compute_payout, first_match, spec_first_match, spec_net, spec_payout_overflows,
};
use crate::state::{
    bet_record_wf, game_record_wf, zone_wf, Bet, BetStatus, GameState, Zone,
    MIN_MULTIPLIER_BPS,
};

verus! {

/// A system account holding free value: a player's or the authority's
/// wallet. An identity with no wallet record simply holds zero.
#[derive(Clone, Copy, PartialEq, Eq, Structural, Debug)]
pub struct Wallet {
    pub id: u64,
    pub balance: u64,
}

/// The escrow vault paired with one game: a balance-only record owned
/// exclusively by the program, debited and credited only as a side effect
/// of resolution and fee withdrawal (and credited by placement).
#[derive(Clone, Copy, PartialEq, Eq, Structural, Debug)]
pub struct Vault {
    pub key: RecordKey,
    pub bump: u8,
    pub balance: u64,
}

// ------------------------------------------------------------------
// Observations over the record stores
// ------------------------------------------------------------------

pub open spec fn has_game(s: Seq<GameState>, authority: u64) -> bool {
    exists|i: int| 0 <= i < s.len() && (#[trigger] s[i]).authority == authority
}

pub open spec fn game_ix(s: Seq<GameState>, authority: u64) -> int {
    choose|i: int| 0 <= i < s.len() && (#[trigger] s[i]).authority == authority
}

/// The game record owned by `authority`, if one exists.
pub open spec fn game_at(s: Seq<GameState>, authority: u64) -> Option<GameState> {
    if has_game(s, authority) {
        Some(s[game_ix(s, authority)])
    } else {
        None
    }
}

pub open spec fn has_vault(s: Seq<Vault>, authority: u64) -> bool {
    exists|i: int| 0 <= i < s.len() && (#[trigger] s[i]).key.owner == authority
}

pub open spec fn vault_ix(s: Seq<Vault>, authority: u64) -> int {
    choose|i: int| 0 <= i < s.len() && (#[trigger] s[i]).key.owner == authority
}

/// The escrow balance held for `authority`'s game; zero when no vault
/// record exists.
pub open spec fn vault_bal(s: Seq<Vault>, authority: u64) -> int {
    if has_vault(s, authority) {
        s[vault_ix(s, authority)].balance as int
    } else {
        0
    }
}

pub open spec fn has_wallet(s: Seq<Wallet>, id: u64) -> bool {
    exists|i: int| 0 <= i < s.len() && (#[trigger] s[i]).id == id
}

pub open spec fn wallet_ix(s: Seq<Wallet>, id: u64) -> int {
    choose|i: int| 0 <= i < s.len() && (#[trigger] s[i]).id == id
}

/// The free balance of identity `id`; zero when no wallet record exists.
pub open spec fn wallet_bal(s: Seq<Wallet>, id: u64) -> int {
    if has_wallet(s, id) {
        s[wallet_ix(s, id)].balance as int
    } else {
        0
    }
}

pub open spec fn has_bet(s: Seq<Bet>, player: u64, round_id: u64) -> bool {
    exists|i: int|
        0 <= i < s.len() && (#[trigger] s[i]).player == player && s[i].round_id == round_id
}

pub open spec fn bet_ix(s: Seq<Bet>, player: u64, round_id: u64) -> int {
    choose|i: int|
        0 <= i < s.len() && (#[trigger] s[i]).player == player && s[i].round_id == round_id
}

/// The bet record keyed by `(player, round_id)`, if one exists.
pub open spec fn bet_at(s: Seq<Bet>, player: u64, round_id: u64) -> Option<Bet> {
    if has_bet(s, player, round_id) {
        Some(s[bet_ix(s, player, round_id)])
    } else {
        None
    }
}

// ------------------------------------------------------------------
// Uniqueness of derived addresses
// ------------------------------------------------------------------

pub open spec fn games_unique(s: Seq<GameState>) -> bool {
    forall|i: int, j: int|
        #![trigger s[i], s[j]]
        0 <= i < j < s.len() ==> s[i].authority != s[j].authority
}

pub open spec fn vaults_unique(s: Seq<Vault>) -> bool {
    forall|i: int, j: int| #![trigger s[i], s[j]] 0 <= i < j < s.len() ==> s[i].key.owner != s[j].key.owner
}

pub open spec fn wallets_unique(s: Seq<Wallet>) -> bool {
    forall|i: int, j: int| #![trigger s[i], s[j]] 0 <= i < j < s.len() ==> s[i].id != s[j].id
}

pub open spec fn bets_unique(s: Seq<Bet>) -> bool {
    forall|i: int, j: int|
        #![trigger s[i], s[j]]
        0 <= i < j < s.len() ==> !(s[i].player == s[j].player && s[i].round_id == s[j].round_id)
}

/// In a store without duplicate authorities, any index holding `authority`
/// is the index every observation uses.
pub proof fn lemma_game_ix(s: Seq<GameState>, authority: u64, i: int)
    requires
        games_unique(s),
        0 <= i < s.len(),
        s[i].authority == authority,
    ensures
        has_game(s, authority),
        game_ix(s, authority) == i,
        game_at(s, authority) == Some(s[i]),
{
    assert(has_game(s, authority));
    let j = game_ix(s, authority);
    assert(0 <= j < s.len() && s[j].authority == authority);
    if i < j {
        assert(s[i].authority != s[j].authority);
    } else if j < i {
        assert(s[j].authority != s[i].authority);
    }
}

pub proof fn lemma_vault_ix(s: Seq<Vault>, authority: u64, i: int)
    requires
        vaults_unique(s),
        0 <= i < s.len(),
        s[i].key.owner == authority,
    ensures
        has_vault(s, authority),
        vault_ix(s, authority) == i,
        vault_bal(s, authority) == s[i].balance,
{
    assert(has_vault(s, authority));
    let j = vault_ix(s, authority);
    assert(0 <= j < s.len() && s[j].key.owner == authority);
    if i < j {
        assert(s[i].key.owner != s[j].key.owner);
    } else if j < i {
        assert(s[j].key.owner != s[i].key.owner);
    }
}

pub proof fn lemma_wallet_ix(s: Seq<Wallet>, id: u64, i: int)
    requires
        wallets_unique(s),
        0 <= i < s.len(),
        s[i].id == id,
    ensures
        has_wallet(s, id),
        wallet_ix(s, id) == i,
        wallet_bal(s, id) == s[i].balance,
{
    assert(has_wallet(s, id));
    let j = wallet_ix(s, id);
    assert(0 <= j < s.len() && s[j].id == id);
    if i < j {
        assert(s[i].id != s[j].id);
    } else if j < i {
        assert(s[j].id != s[i].id);
    }
}

pub proof fn lemma_bet_ix(s: Seq<Bet>, player: u64, round_id: u64, i: int)
    requires
        bets_unique(s),
        0 <= i < s.len(),
        s[i].player == player,
        s[i].round_id == round_id,
    ensures
        has_bet(s, player, round_id),
        bet_ix(s, player, round_id) == i,
        bet_at(s, player, round_id) == Some(s[i]),
{
    assert(has_bet(s, player, round_id));
    let j = bet_ix(s, player, round_id);
    assert(0 <= j < s.len() && s[j].player == player && s[j].round_id == round_id);
    if i < j {
        assert(!(s[i].player == s[j].player && s[i].round_id == s[j].round_id));
    } else if j < i {
        assert(!(s[j].player == s[i].player && s[j].round_id == s[i].round_id));
    }
}

// ------------------------------------------------------------------
// Value conservation
// ------------------------------------------------------------------

/// The value held across all wallet records.
pub open spec fn sum_wallets(s: Seq<Wallet>) -> int
    decreases s.len(),
{
    if s.len() == 0 {
        0
    } else {
        sum_wallets(s.drop_last()) + s.last().balance
    }
}

/// The value held across all escrow vaults.
pub open spec fn sum_vaults(s: Seq<Vault>) -> int
    decreases s.len(),
{
    if s.len() == 0 {
        0
    } else {
        sum_vaults(s.drop_last()) + s.last().balance
    }
}

/// All value in the system: free balances plus escrowed balances.
pub open spec fn total_value(wallets: Seq<Wallet>, vaults: Seq<Vault>) -> int {
    sum_wallets(wallets) + sum_vaults(vaults)
}

pub proof fn lemma_sum_wallets_push(s: Seq<Wallet>, w: Wallet)
    ensures
        sum_wallets(s.push(w)) == sum_wallets(s) + w.balance,
{
    assert(s.push(w).drop_last() =~= s);
}

pub proof fn lemma_sum_vaults_push(s: Seq<Vault>, v: Vault)
    ensures
        sum_vaults(s.push(v)) == sum_vaults(s) + v.balance,
{
    assert(s.push(v).drop_last() =~= s);
}

pub proof fn lemma_sum_wallets_update(s: Seq<Wallet>, i: int, w: Wallet)
    requires
        0 <= i < s.len(),
    ensures
        sum_wallets(s.update(i, w)) == sum_wallets(s) - s[i].balance + w.balance,
    decreases s.len(),
{
    if i == s.len() - 1 {
        assert(s.update(i, w).drop_last() =~= s.drop_last());
        assert(s.update(i, w).last() == w);
    } else {
        assert(s.update(i, w).drop_last() =~= s.drop_last().update(i, w));
        assert(s.update(i, w).last() == s.last());
        lemma_sum_wallets_update(s.drop_last(), i, w);
    }
}

pub proof fn lemma_sum_vaults_update(s: Seq<Vault>, i: int, v: Vault)
    requires
        0 <= i < s.len(),
    ensures
        sum_vaults(s.update(i, v)) == sum_vaults(s) - s[i].balance + v.balance,
    decreases s.len(),
{
    if i == s.len() - 1 {
        assert(s.update(i, v).drop_last() =~= s.drop_last());
        assert(s.update(i, v).last() == v);
    } else {
        assert(s.update(i, v).drop_last() =~= s.drop_last().update(i, v));
        assert(s.update(i, v).last() == s.last());
        lemma_sum_vaults_update(s.drop_last(), i, v);
    }
}

pub proof fn lemma_sum_wallets_ge(s: Seq<Wallet>, i: int)
    requires
        0 <= i < s.len(),
    ensures
        sum_wallets(s) >= s[i].balance,
        sum_wallets(s) >= 0,
    decreases s.len(),
{
    lemma_sum_wallets_nonneg(s.drop_last());
    if i < s.len() - 1 {
        lemma_sum_wallets_ge(s.drop_last(), i);
    }
}

pub proof fn lemma_sum_wallets_nonneg(s: Seq<Wallet>)
    ensures
        sum_wallets(s) >= 0,
    decreases s.len(),
{
    if s.len() > 0 {
        lemma_sum_wallets_nonneg(s.drop_last());
    }
}

pub proof fn lemma_sum_vaults_ge(s: Seq<Vault>, i: int)
    requires
        0 <= i < s.len(),
    ensures
        sum_vaults(s) >= s[i].balance,
        sum_vaults(s) >= 0,
    decreases s.len(),
{
    lemma_sum_vaults_nonneg(s.drop_last());
    if i < s.len() - 1 {
        lemma_sum_vaults_ge(s.drop_last(), i);
    }
}

pub proof fn lemma_sum_vaults_nonneg(s: Seq<Vault>)
    ensures
        sum_vaults(s) >= 0,
    decreases s.len(),
{
    if s.len() > 0 {
        lemma_sum_vaults_nonneg(s.drop_last());
    }
}

// ------------------------------------------------------------------
// The ledger
// ------------------------------------------------------------------

/// The whole system state: every record the program owns, every wallet,
/// and the platform clock. Each public operation reads and writes it as a
/// single atomic unit: on any failure the ledger is left exactly as it was.
pub struct Ledger {
    pub games: Vec<GameState>,
    pub vaults: Vec<Vault>,
    pub bets: Vec<Bet>,
    pub wallets: Vec<Wallet>,
    /// The monotonic platform clock, supplied from outside; placement
    /// stamps each bet with its current value.
    pub clock: i64,
}

/// A vault record is internally consistent when its address carries the
/// vault namespace tag and its stored bump matches its seeds.
pub open spec fn vault_record_wf(v: Vault) -> bool {
    &&& v.key.tag == VAULT_TAG
    &&& v.key.round == 0
    &&& v.bump == spec_bump(VAULT_TAG, v.key.owner, 0)
}

impl Ledger {
    /// The ledger invariant: derived addresses are collision-free, every
    /// record is internally consistent, every game has its paired vault
    /// and every vault its game, and the value in the system fits the
    /// machine word (so transfers can never overflow a balance).
    pub open spec fn wf(self) -> bool {
        &&& games_unique(self.games@)
        &&& vaults_unique(self.vaults@)
        &&& bets_unique(self.bets@)
        &&& wallets_unique(self.wallets@)
        &&& forall|i: int|
            0 <= i < self.games@.len() ==> game_record_wf(#[trigger] self.games@[i])
        &&& forall|i: int|
            0 <= i < self.vaults@.len() ==> vault_record_wf(#[trigger] self.vaults@[i])
        &&& forall|i: int| 0 <= i < self.bets@.len() ==> bet_record_wf(#[trigger] self.bets@[i])
        &&& forall|i: int|
            0 <= i < self.games@.len() ==> has_vault(
                self.vaults@,
                (#[trigger] self.games@[i]).authority,
            )
        &&& forall|i: int|
            0 <= i < self.vaults@.len() ==> has_game(
                self.games@,
                (#[trigger] self.vaults@[i]).key.owner,
            )
        &&& total_value(self.wallets@, self.vaults@) <= u64::MAX
    }

    /// An empty ledger: no games, no vaults, no bets, no wallets, clock at
    /// zero.
    pub fn new() -> (l: Ledger)
        ensures
            l.wf(),
            l.games@.len() == 0,
            l.vaults@.len() == 0,
            l.bets@.len() == 0,
            l.wallets@.len() == 0,
            l.clock == 0,
    {
        Ledger {
            games: Vec::new(),
            vaults: Vec::new(),
            bets: Vec::new(),
            wallets: Vec::new(),
            clock: 0,
        }
    }

    /// Advances the platform clock. The clock is an external input; the
    /// engine only records it on placed bets.
    pub fn set_clock(&mut self, now: i64)
        requires
            old(self).wf(),
        ensures
            final(self).wf(),
            *final(self) == (Ledger { clock: now, ..*old(self) }),
    {
        self.clock = now;
    }

    /// Credits free value to `id`'s wallet from outside the system (a
    /// faucet for setting scenarios up). Fails when the new value would
    /// push the system total past the machine word.
    pub fn fund(&mut self, id: u64, amount: u64) -> (r: Result<(), LedgerError>)
        requires
            old(self).wf(),
        ensures
            final(self).wf(),
            r matches Ok(()) <==> total_value(old(self).wallets@, old(self).vaults@) + amount
                <= u64::MAX,
            r matches Ok(()) ==> {
                &&& wallet_bal(final(self).wallets@, id) == wallet_bal(old(self).wallets@, id)
                    + amount
                &&& forall|id2: u64|
                    id2 != id ==> wallet_bal(final(self).wallets@, id2) == wallet_bal(
                        old(self).wallets@,
                        id2,
                    )
                &&& final(self).games@ == old(self).games@
                &&& final(self).vaults@ == old(self).vaults@
                &&& final(self).bets@ == old(self).bets@
                &&& final(self).clock == old(self).clock
                &&& total_value(final(self).wallets@, final(self).vaults@) == total_value(
                    old(self).wallets@,
                    old(self).vaults@,
                ) + amount
            },
            r matches Err(e) ==> *final(self) == *old(self) && e == LedgerError::InsufficientFunds,
    {
        let total = sum_balances_exec(&self.wallets, &self.vaults);
        if amount > u64::MAX - total {
            return Err(LedgerError::InsufficientFunds);
        }
        proof {
            if has_wallet(self.wallets@, id) {
                lemma_sum_wallets_ge(self.wallets@, wallet_ix(self.wallets@, id));
            }
            lemma_sum_wallets_nonneg(self.wallets@);
            lemma_sum_vaults_nonneg(self.vaults@);
        }
        credit_wallet(&mut self.wallets, id, amount);
        Ok(())
    }
}

/// Computes the value currently in the system; partial sums stay in bounds
/// because the invariant bounds the total.
fn sum_balances_exec(wallets: &Vec<Wallet>, vaults: &Vec<Vault>) -> (t: u64)
    requires
        total_value(wallets@, vaults@) <= u64::MAX,
    ensures
        t == total_value(wallets@, vaults@),
{
    let mut t: u64 = 0;
    let mut i: usize = 0;
    proof {
        lemma_sum_prefix_bounds(wallets@, vaults@);
    }
    while i < wallets.len()
        invariant
            i <= wallets@.len(),
            t == sum_wallets(wallets@.take(i as int)),
            total_value(wallets@, vaults@) <= u64::MAX,
            forall|k: int|
                0 <= k <= wallets@.len() ==> sum_wallets(#[trigger] wallets@.take(k)) <= total_value(
                    wallets@,
                    vaults@,
                ),
        decreases wallets@.len() - i,
    {
        proof {
            assert(wallets@.take(i + 1).drop_last() =~= wallets@.take(i as int));
            assert(wallets@.take(i + 1).last() == wallets@[i as int]);
        }
        t = t + wallets[i].balance;
        i += 1;
    }
    proof {
        assert(wallets@.take(wallets@.len() as int) =~= wallets@);
    }
    let mut j: usize = 0;
    while j < vaults.len()
        invariant
            j <= vaults@.len(),
            t == sum_wallets(wallets@) + sum_vaults(vaults@.take(j as int)),
            total_value(wallets@, vaults@) <= u64::MAX,
            forall|k: int|
                0 <= k <= vaults@.len() ==> sum_wallets(wallets@) + sum_vaults(
                    #[trigger] vaults@.take(k),
                ) <= total_value(wallets@, vaults@),
        decreases vaults@.len() - j,
    {
        proof {
            assert(vaults@.take(j + 1).drop_last() =~= vaults@.take(j as int));
            assert(vaults@.take(j + 1).last() == vaults@[j as int]);
        }
        t = t + vaults[j].balance;
        j += 1;
    }
    proof {
        assert(vaults@.take(vaults@.len() as int) =~= vaults@);
    }
    t
}

/// Every prefix sum is bounded by the full sum, because balances are
/// non-negative.
proof fn lemma_sum_prefix_bounds(wallets: Seq<Wallet>, vaults: Seq<Vault>)
    ensures
        forall|k: int|
            0 <= k <= wallets.len() ==> sum_wallets(#[trigger] wallets.take(k)) <= sum_wallets(
                wallets,
            ),
        forall|k: int|
            0 <= k <= vaults.len() ==> sum_vaults(#[trigger] vaults.take(k)) <= sum_vaults(vaults),
        sum_wallets(wallets) >= 0,
        sum_vaults(vaults) >= 0,
{
    lemma_sum_wallets_nonneg(wallets);
    lemma_sum_vaults_nonneg(vaults);
    assert forall|k: int| 0 <= k <= wallets.len() implies sum_wallets(
        #[trigger] wallets.take(k),
    ) <= sum_wallets(wallets) by {
        lemma_sum_wallets_take(wallets, k);
    }
    assert forall|k: int| 0 <= k <= vaults.len() implies sum_vaults(#[trigger] vaults.take(k))
        <= sum_vaults(vaults) by {
        lemma_sum_vaults_take(vaults, k);
    }
}

proof fn lemma_sum_wallets_take(s: Seq<Wallet>, k: int)
    requires
        0 <= k <= s.len(),
    ensures
        sum_wallets(s.take(k)) <= sum_wallets(s),
    decreases s.len() - k,
{
    if k == s.len() {
        assert(s.take(k) =~= s);
    } else {
        lemma_sum_wallets_take(s, k + 1);
        assert(s.take(k + 1).drop_last() =~= s.take(k));
        assert(s.take(k + 1).last() == s[k]);
    }
}

proof fn lemma_sum_vaults_take(s: Seq<Vault>, k: int)
    requires
        0 <= k <= s.len(),
    ensures
        sum_vaults(s.take(k)) <= sum_vaults(s),
    decreases s.len() - k,
{
    if k == s.len() {
        assert(s.take(k) =~= s);
    } else {
        lemma_sum_vaults_take(s, k + 1);
        assert(s.take(k + 1).drop_last() =~= s.take(k));
        assert(s.take(k + 1).last() == s[k]);
    }
}

// ------------------------------------------------------------------
// Record lookups
// ------------------------------------------------------------------

fn find_game(games: &Vec<GameState>, authority: u64) -> (r: Option<usize>)
    ensures
        match r {
            Some(i) => i < games@.len() && games@[i as int].authority == authority,
            None => !has_game(games@, authority),
        },
{
    let mut i: usize = 0;
    while i < games.len()
        invariant
            i <= games@.len(),
            forall|j: int| 0 <= j < i ==> (#[trigger] games@[j]).authority != authority,
        decreases games@.len() - i,
    {
        if games[i].authority == authority {
            return Some(i);
        }
        i += 1;
    }
    None
}

fn find_vault(vaults: &Vec<Vault>, authority: u64) -> (r: Option<usize>)
    ensures
        match r {
            Some(i) => i < vaults@.len() && vaults@[i as int].key.owner == authority,
            None => !has_vault(vaults@, authority),
        },
{
    let mut i: usize = 0;
    while i < vaults.len()
        invariant
            i <= vaults@.len(),
            forall|j: int| 0 <= j < i ==> (#[trigger] vaults@[j]).key.owner != authority,
        decreases vaults@.len() - i,
    {
        if vaults[i].key.owner == authority {
            return Some(i);
        }
        i += 1;
    }
    None
}

fn find_wallet(wallets: &Vec<Wallet>, id: u64) -> (r: Option<usize>)
    ensures
        match r {
            Some(i) => i < wallets@.len() && wallets@[i as int].id == id,
            None => !has_wallet(wallets@, id),
        },
{
    let mut i: usize = 0;
    while i < wallets.len()
        invariant
            i <= wallets@.len(),
            forall|j: int| 0 <= j < i ==> (#[trigger] wallets@[j]).id != id,
        decreases wallets@.len() - i,
    {
        if wallets[i].id == id {
            return Some(i);
        }
        i += 1;
    }
    None
}

fn find_bet(bets: &Vec<Bet>, player: u64, round_id: u64) -> (r: Option<usize>)
    ensures
        match r {
            Some(i) => i < bets@.len() && bets@[i as int].player == player
                && bets@[i as int].round_id == round_id,
            None => !has_bet(bets@, player, round_id),
        },
{
    let mut i: usize = 0;
    while i < bets.len()
        invariant
            i <= bets@.len(),
            forall|j: int|
                0 <= j < i ==> !((#[trigger] bets@[j]).player == player && bets@[j].round_id
                    == round_id),
        decreases bets@.len() - i,
    {
        if bets[i].player == player && bets[i].round_id == round_id {
            return Some(i);
        }
        i += 1;
    }
    None
}

// ------------------------------------------------------------------
// Balance movement helpers
// ------------------------------------------------------------------

/// Credits `amount` to `id`'s wallet, creating the wallet record when none
/// exists yet.
fn credit_wallet(wallets: &mut Vec<Wallet>, id: u64, amount: u64)
    requires
        wallets_unique(old(wallets)@),
        wallet_bal(old(wallets)@, id) + amount <= u64::MAX,
    ensures
        wallets_unique(final(wallets)@),
        wallet_bal(final(wallets)@, id) == wallet_bal(old(wallets)@, id) + amount,
        forall|id2: u64|
            id2 != id ==> wallet_bal(final(wallets)@, id2) == wallet_bal(old(wallets)@, id2),
        forall|id2: u64|
            id2 != id ==> has_wallet(final(wallets)@, id2) == has_wallet(old(wallets)@, id2),
        has_wallet(final(wallets)@, id),
        sum_wallets(final(wallets)@) == sum_wallets(old(wallets)@) + amount,
{
    match find_wallet(wallets, id) {
        Some(i) => {
            proof {
                lemma_wallet_ix(wallets@, id, i as int);
                lemma_sum_wallets_update(
                    wallets@,
                    i as int,
                    Wallet { id, balance: (wallets@[i as int].balance + amount) as u64 },
                );
            }
            let ghost s0 = wallets@;
            let w = Wallet { id, balance: wallets[i].balance + amount };
            wallets[i] = w;
            proof {
                lemma_wallet_frame_update(s0, wallets@, i as int, id);
            }
        },
        None => {
            let ghost s0 = wallets@;
            wallets.push(Wallet { id, balance: amount });
            proof {
                lemma_sum_wallets_push(s0, Wallet { id, balance: amount });
                lemma_wallet_frame_push(s0, wallets@, id);
            }
        },
    }
}

/// Debits `amount` from `id`'s wallet; the caller has already checked the
/// balance suffices.
fn debit_wallet(wallets: &mut Vec<Wallet>, id: u64, amount: u64)
    requires
        wallets_unique(old(wallets)@),
        wallet_bal(old(wallets)@, id) >= amount,
    ensures
        wallets_unique(final(wallets)@),
        wallet_bal(final(wallets)@, id) == wallet_bal(old(wallets)@, id) - amount,
        forall|id2: u64|
            id2 != id ==> wallet_bal(final(wallets)@, id2) == wallet_bal(old(wallets)@, id2),
        forall|id2: u64|
            id2 != id ==> has_wallet(final(wallets)@, id2) == has_wallet(old(wallets)@, id2),
        sum_wallets(final(wallets)@) == sum_wallets(old(wallets)@) - amount,
{
    if amount == 0 {
        return ;
    }
    // A positive balance means the wallet record exists.
    let r = find_wallet(wallets, id);
    match r {
        Some(i) => {
            proof {
                lemma_wallet_ix(wallets@, id, i as int);
                lemma_sum_wallets_update(
                    wallets@,
                    i as int,
                    Wallet { id, balance: (wallets@[i as int].balance - amount) as u64 },
                );
            }
            let ghost s0 = wallets@;
            let w = Wallet { id, balance: wallets[i].balance - amount };
            wallets[i] = w;
            proof {
                lemma_wallet_frame_update(s0, wallets@, i as int, id);
            }
        },
        None => {
            proof {
                assert(wallet_bal(wallets@, id) == 0);
            }
        },
    }
}

/// The same vault record with its balance replaced.
pub open spec fn vault_with_bal(v: Vault, b: u64) -> Vault {
    Vault { balance: b, ..v }
}

/// Credits `amount` to the vault owned by `authority`; the vault exists
/// because every game is created with its paired vault.
fn credit_vault(vaults: &mut Vec<Vault>, authority: u64, amount: u64)
    requires
        vaults_unique(old(vaults)@),
        has_vault(old(vaults)@, authority),
        vault_bal(old(vaults)@, authority) + amount <= u64::MAX,
    ensures
        vaults_unique(final(vaults)@),
        final(vaults)@ == old(vaults)@.update(
            vault_ix(old(vaults)@, authority),
            vault_with_bal(
                old(vaults)@[vault_ix(old(vaults)@, authority)],
                (vault_bal(old(vaults)@, authority) + amount) as u64,
            ),
        ),
        vault_bal(final(vaults)@, authority) == vault_bal(old(vaults)@, authority) + amount,
        forall|a2: u64|
            a2 != authority ==> vault_bal(final(vaults)@, a2) == vault_bal(old(vaults)@, a2),
        forall|a2: u64| has_vault(final(vaults)@, a2) == has_vault(old(vaults)@, a2),
        sum_vaults(final(vaults)@) == sum_vaults(old(vaults)@) + amount,
{
    let r = find_vault(vaults, authority);
    match r {
        Some(i) => {
            proof {
                lemma_vault_ix(vaults@, authority, i as int);
                lemma_sum_vaults_update(
                    vaults@,
                    i as int,
                    vault_with_bal(vaults@[i as int], (vaults@[i as int].balance + amount) as u64),
                );
            }
            let ghost s0 = vaults@;
            let v = Vault {
                key: vaults[i].key,
                bump: vaults[i].bump,
                balance: vaults[i].balance + amount,
            };
            vaults[i] = v;
            proof {
                lemma_vault_frame_update(s0, vaults@, i as int, authority);
            }
        },
        None => {
            // Unreachable: the caller guarantees the vault exists.
            proof {
                assert(false);
            }
        },
    }
}

/// Debits `amount` from the vault owned by `authority`; the caller has
/// already checked the balance suffices.
fn debit_vault(vaults: &mut Vec<Vault>, authority: u64, amount: u64)
    requires
        vaults_unique(old(vaults)@),
        has_vault(old(vaults)@, authority),
        vault_bal(old(vaults)@, authority) >= amount,
    ensures
        vaults_unique(final(vaults)@),
        final(vaults)@ == old(vaults)@.update(
            vault_ix(old(vaults)@, authority),
            vault_with_bal(
                old(vaults)@[vault_ix(old(vaults)@, authority)],
                (vault_bal(old(vaults)@, authority) - amount) as u64,
            ),
        ),
        vault_bal(final(vaults)@, authority) == vault_bal(old(vaults)@, authority) - amount,
        forall|a2: u64|
            a2 != authority ==> vault_bal(final(vaults)@, a2) == vault_bal(old(vaults)@, a2),
        forall|a2: u64| has_vault(final(vaults)@, a2) == has_vault(old(vaults)@, a2),
        sum_vaults(final(vaults)@) == sum_vaults(old(vaults)@) - amount,
{
    let r = find_vault(vaults, authority);
    match r {
        Some(i) => {
            proof {
                lemma_vault_ix(vaults@, authority, i as int);
                lemma_sum_vaults_update(
                    vaults@,
                    i as int,
                    vault_with_bal(vaults@[i as int], (vaults@[i as int].balance - amount) as u64),
                );
            }
            let ghost s0 = vaults@;
            let v = Vault {
                key: vaults[i].key,
                bump: vaults[i].bump,
                balance: vaults[i].balance - amount,
            };
            vaults[i] = v;
            proof {
                lemma_vault_frame_update(s0, vaults@, i as int, authority);
            }
        },
        None => {
            // Unreachable: the caller guarantees the vault exists.
            proof {
                assert(false);
            }
        },
    }
}

/// After updating index `i` (which holds `authority`'s vault) without
/// changing its key or bump, every other vault observation is unchanged.
proof fn lemma_vault_frame_update(s0: Seq<Vault>, s1: Seq<Vault>, i: int, authority: u64)
    requires
        vaults_unique(s0),
        0 <= i < s0.len(),
        s0[i].key.owner == authority,
        s1 == s0.update(i, vault_with_bal(s0[i], s1[i].balance)),
    ensures
        vaults_unique(s1),
        forall|a2: u64| a2 != authority ==> vault_bal(s1, a2) == vault_bal(s0, a2),
        forall|a2: u64| has_vault(s1, a2) == has_vault(s0, a2),
        has_vault(s1, authority),
        vault_ix(s1, authority) == i,
{
    assert forall|a: int, b: int| #![trigger s1[a], s1[b]] 0 <= a < b < s1.len() implies s1[a].key.owner
        != s1[b].key.owner by {
        assert(s0[a].key.owner == s1[a].key.owner && s0[b].key.owner == s1[b].key.owner);
    }
    lemma_vault_ix(s1, authority, i);
    assert forall|a2: u64| has_vault(s1, a2) == has_vault(s0, a2) && (a2 != authority
        ==> vault_bal(s1, a2) == vault_bal(s0, a2)) by {
        if has_vault(s0, a2) {
            let j = vault_ix(s0, a2);
            assert(0 <= j < s0.len() && s0[j].key.owner == a2);
            assert(s1[j].key.owner == a2);
            lemma_vault_ix(s1, a2, j);
            lemma_vault_ix(s0, a2, j);
        } else {
            if has_vault(s1, a2) {
                let j = vault_ix(s1, a2);
                assert(0 <= j < s1.len() && s1[j].key.owner == a2);
                assert(s0[j].key.owner == a2);
                assert(has_vault(s0, a2));
            }
        }
    }
}

// ------------------------------------------------------------------
// initialize
// ------------------------------------------------------------------

/// The game record `initialize` creates for `authority` with `fee_bps`.
/// The fee rate is stored verbatim: it is not range-checked at creation,
/// and an excessive rate is neutralized later by the checked settlement
/// arithmetic.
pub open spec fn spec_new_game(authority: u64, fee_bps: u16) -> GameState {
    GameState {
        authority,
        vault: spec_vault_key(authority),
        fee_bps,
        total_rounds: 0,
        bump: spec_bump(GAME_TAG, authority, 0),
        vault_bump: spec_bump(VAULT_TAG, authority, 0),
    }
}

/// The zero-balance escrow vault `initialize` creates beside the game.
pub open spec fn spec_new_vault(authority: u64) -> Vault {
    Vault {
        key: spec_vault_key(authority),
        bump: spec_bump(VAULT_TAG, authority, 0),
        balance: 0,
    }
}

/// The accounts an `initialize` call touches: the signing authority, who
/// pays for record creation.
#[derive(Clone, Copy, PartialEq, Eq, Structural, Debug)]
pub struct Initialize {
    pub authority: u64,
}

/// Creates the game record and its paired zero-balance escrow vault for
/// `ctx.authority`, storing `fee_bps` verbatim. Fails, changing nothing,
/// exactly when a game for that authority already exists — so a second
/// call can never overwrite the stored configuration.
pub fn initialize(l: &mut Ledger, ctx: Initialize, fee_bps: u16) -> (r: Result<(), LedgerError>)
    requires
        old(l).wf(),
    ensures
        final(l).wf(),
        r matches Ok(()) <==> !has_game(old(l).games@, ctx.authority),
        r matches Err(e) ==> e == LedgerError::RecordAlreadyExists && *final(l) == *old(l),
        r matches Ok(()) ==> {
            &&& final(l).games@ == old(l).games@.push(spec_new_game(ctx.authority, fee_bps))
            &&& final(l).vaults@ == old(l).vaults@.push(spec_new_vault(ctx.authority))
            &&& final(l).bets@ == old(l).bets@
            &&& final(l).wallets@ == old(l).wallets@
            &&& final(l).clock == old(l).clock
            &&& game_at(final(l).games@, ctx.authority) == Some(
                spec_new_game(ctx.authority, fee_bps),
            )
            &&& vault_bal(final(l).vaults@, ctx.authority) == 0
            &&& forall|a2: u64|
                a2 != ctx.authority ==> game_at(final(l).games@, a2) == game_at(
                    old(l).games@,
                    a2,
                )
            &&& forall|a2: u64|
                a2 != ctx.authority ==> vault_bal(final(l).vaults@, a2) == vault_bal(
                    old(l).vaults@,
                    a2,
                )
            &&& total_value(final(l).wallets@, final(l).vaults@) == total_value(
                old(l).wallets@,
                old(l).vaults@,
            )
        },
{
    let a = ctx.authority;
    match find_game(&l.games, a) {
        Some(_) => {
            return Err(LedgerError::RecordAlreadyExists);
        },
        None => {},
    }
    let bump = derive_bump(GAME_TAG, a, 0);
    let vbump = derive_bump(VAULT_TAG, a, 0);
    let ghost g0 = l.games@;
    let ghost v0 = l.vaults@;
    let g = GameState {
        authority: a,
        vault: vault_key(a),
        fee_bps,
        total_rounds: 0,
        bump,
        vault_bump: vbump,
    };
    l.games.push(g);
    let nv = Vault { key: vault_key(a), bump: vbump, balance: 0 };
    l.vaults.push(nv);
    proof {
        let g1 = l.games@;
        let v1 = l.vaults@;
        assert(g == spec_new_game(a, fee_bps));
        assert(nv == spec_new_vault(a));
        // The old stores held no record for this authority.
        if has_vault(v0, a) {
            let i = vault_ix(v0, a);
            assert(0 <= i < v0.len() && v0[i].key.owner == a);
            assert(has_game(g0, a));
        }
        // Uniqueness survives pushing a fresh authority.
        assert forall|x: int, y: int| #![trigger g1[x], g1[y]] 0 <= x < y < g1.len() implies g1[x].authority
            != g1[y].authority by {
            if y < g0.len() {
                assert(g1[x] == g0[x] && g1[y] == g0[y]);
            } else {
                assert(g1[y].authority == a && g1[x] == g0[x]);
                if g0[x].authority == a {
                    assert(has_game(g0, a));
                }
            }
        }
        assert forall|x: int, y: int| #![trigger v1[x], v1[y]] 0 <= x < y < v1.len() implies v1[x].key.owner
            != v1[y].key.owner by {
            if y < v0.len() {
                assert(v1[x] == v0[x] && v1[y] == v0[y]);
            } else {
                assert(v1[y].key.owner == a && v1[x] == v0[x]);
                if v0[x].key.owner == a {
                    assert(has_vault(v0, a));
                }
            }
        }
        // Every game still has its paired vault, and the other way round.
        assert forall|i: int| 0 <= i < g1.len() implies has_vault(
            v1,
            (#[trigger] g1[i]).authority,
        ) by {
            if i < g0.len() {
                assert(has_vault(v0, g0[i].authority));
                let j = vault_ix(v0, g0[i].authority);
                assert(v1[j] == v0[j]);
                assert(v1[j].key.owner == g1[i].authority);
            } else {
                assert(v1[v0.len() as int].key.owner == a);
            }
        }
        assert forall|i: int| 0 <= i < v1.len() implies has_game(
            g1,
            (#[trigger] v1[i]).key.owner,
        ) by {
            if i < v0.len() {
                assert(has_game(g0, v0[i].key.owner));
                let j = game_ix(g0, v0[i].key.owner);
                assert(g1[j] == g0[j]);
                assert(g1[j].authority == v1[i].key.owner);
            } else {
                assert(g1[g0.len() as int].authority == a);
            }
        }
        lemma_sum_vaults_push(v0, nv);
        lemma_game_ix(g1, a, g0.len() as int);
        lemma_vault_ix(v1, a, v0.len() as int);
        // Records for other authorities are observed unchanged.
        assert forall|a2: u64| a2 != a implies game_at(g1, a2) == game_at(g0, a2) by {
            if has_game(g0, a2) {
                let j = game_ix(g0, a2);
                assert(0 <= j < g0.len() && g0[j].authority == a2);
                assert(g1[j] == g0[j]);
                lemma_game_ix(g1, a2, j);
                lemma_game_ix(g0, a2, j);
            } else {
                if has_game(g1, a2) {
                    let j = game_ix(g1, a2);
                    assert(0 <= j < g1.len() && g1[j].authority == a2);
                    assert(j < g0.len());
                    assert(has_game(g0, a2));
                }
            }
        }
        assert forall|a2: u64| a2 != a implies vault_bal(v1, a2) == vault_bal(v0, a2) by {
            if has_vault(v0, a2) {
                let j = vault_ix(v0, a2);
                assert(0 <= j < v0.len() && v0[j].key.owner == a2);
                assert(v1[j] == v0[j]);
                lemma_vault_ix(v1, a2, j);
                lemma_vault_ix(v0, a2, j);
            } else {
                if has_vault(v1, a2) {
                    let j = vault_ix(v1, a2);
                    assert(0 <= j < v1.len() && v1[j].key.owner == a2);
                    assert(j < v0.len());
                    assert(has_vault(v0, a2));
                }
            }
        }
    }
    Ok(())
}

// ------------------------------------------------------------------
// place_bet
// ------------------------------------------------------------------

/// The first validation failure among the zones, scanned in stored order;
/// for each zone the bounds are checked before the multiplier.
pub open spec fn zones_err(zs: Seq<Zone>) -> Option<SolamaError>
    decreases zs.len(),
{
    if zs.len() == 0 {
        None
    } else if !(zs[0].lower_bound < zs[0].upper_bound) {
        Some(SolamaError::InvalidZoneBounds)
    } else if !(zs[0].multiplier_bps >= MIN_MULTIPLIER_BPS) {
        Some(SolamaError::InvalidMultiplier)
    } else {
        zones_err(zs.drop_first())
    }
}

/// The zone scan accepts exactly the well-formed zone lists.
pub proof fn lemma_zones_err_none(zs: Seq<Zone>)
    ensures
        zones_err(zs) is None <==> (forall|i: int| 0 <= i < zs.len() ==> zone_wf(#[trigger] zs[i])),
    decreases zs.len(),
{
    if zs.len() > 0 {
        lemma_zones_err_none(zs.drop_first());
        assert forall|i: int| 1 <= i < zs.len() implies zs.drop_first()[i - 1] == zs[i] by {}
        if zones_err(zs) is None {
            assert forall|i: int| 0 <= i < zs.len() implies zone_wf(#[trigger] zs[i]) by {
                if i > 0 {
                    assert(zone_wf(zs.drop_first()[i - 1]));
                }
            }
        }
    }
}

proof fn lemma_zones_err_step(zs: Seq<Zone>, i: int)
    requires
        0 <= i < zs.len(),
        zone_wf(zs[i]),
    ensures
        zones_err(zs.skip(i)) == zones_err(zs.skip(i + 1)),
{
    assert(zs.skip(i)[0] == zs[i]);
    assert(zs.skip(i).drop_first() =~= zs.skip(i + 1));
}

/// Validates the zones in stored order: bounds, then multiplier, for each
/// zone in turn; reports the first failure.
pub fn validate_zones(zones: &Vec<Zone>) -> (r: Option<SolamaError>)
    ensures
        r == zones_err(zones@),
{
    let mut i: usize = 0;
    proof {
        assert(zones@.skip(0) =~= zones@);
    }
    while i < zones.len()
        invariant
            i <= zones@.len(),
            zones_err(zones@) == zones_err(zones@.skip(i as int)),
        decreases zones@.len() - i,
    {
        proof {
            assert(zones@.skip(i as int)[0] == zones@[i as int]);
        }
        if !(zones[i].lower_bound < zones[i].upper_bound) {
            return Some(SolamaError::InvalidZoneBounds);
        }
        if !(zones[i].multiplier_bps >= MIN_MULTIPLIER_BPS) {
            return Some(SolamaError::InvalidMultiplier);
        }
        proof {
            lemma_zones_err_step(zones@, i as int);
        }
        i += 1;
    }
    proof {
        assert(zones@.skip(i as int).len() == 0);
    }
    None
}

/// The accounts a `place_bet` call touches: the game bet on, and the
/// signing player, who funds the stake.
#[derive(Clone, Copy, PartialEq, Eq, Structural, Debug)]
pub struct PlaceBet {
    pub game_authority: u64,
    pub player: u64,
}

/// The failure `place_bet` surfaces, or `None` when it succeeds: account
/// resolution first (the game must exist, the bet address must be fresh),
/// then the argument checks in their stated order, then the stake
/// transfer.
pub open spec fn place_err(
    l: Ledger,
    ctx: PlaceBet,
    round_id: u64,
    amount: u64,
    zones: Seq<Zone>,
) -> Option<LedgerError> {
    if !has_game(l.games@, ctx.game_authority) {
        Some(LedgerError::RecordNotFound)
    } else if has_bet(l.bets@, ctx.player, round_id) {
        Some(LedgerError::RecordAlreadyExists)
    } else if amount == 0 {
        Some(LedgerError::Program(SolamaError::InvalidAmount))
    } else if !(1 <= zones.len() <= 2) {
        Some(LedgerError::Program(SolamaError::InvalidZoneCount))
    } else if zones_err(zones) is Some {
        Some(LedgerError::Program(zones_err(zones)->Some_0))
    } else if wallet_bal(l.wallets@, ctx.player) < amount {
        Some(LedgerError::InsufficientFunds)
    } else {
        None
    }
}

/// The fields the bet record created by a successful placement holds.
pub open spec fn placed_bet_matches(
    b: Bet,
    player: u64,
    round_id: u64,
    amount: u64,
    zones: Seq<Zone>,
    ts: i64,
) -> bool {
    &&& b.player == player
    &&& b.round_id == round_id
    &&& b.amount == amount
    &&& b.zones@ == zones
    &&& b.status == BetStatus::Pending
    &&& b.payout == 0
    &&& b.settled_price == 0
    &&& b.timestamp == ts
    &&& b.bump == spec_bump(BET_TAG, player, round_id)
}

/// The whole effect of a successful placement: the stake moves from the
/// player's free balance into the game's vault, by exactly `amount`, a
/// pending bet record appears under the derived address, and nothing else
/// changes — in particular, the value in the system is conserved.
pub open spec fn place_ok_post(
    l0: Ledger,
    l1: Ledger,
    ctx: PlaceBet,
    round_id: u64,
    amount: u64,
    zones: Seq<Zone>,
) -> bool {
    &&& l1.games@ == l0.games@
    &&& l1.clock == l0.clock
    &&& l1.bets@.len() == l0.bets@.len() + 1
    &&& forall|i: int| 0 <= i < l0.bets@.len() ==> l1.bets@[i] == l0.bets@[i]
    &&& placed_bet_matches(l1.bets@.last(), ctx.player, round_id, amount, zones, l0.clock)
    &&& bet_at(l1.bets@, ctx.player, round_id) == Some(l1.bets@.last())
    &&& forall|p: u64, r2: u64|
        !(p == ctx.player && r2 == round_id) ==> bet_at(l1.bets@, p, r2) == bet_at(l0.bets@, p, r2)
    &&& wallet_bal(l1.wallets@, ctx.player) == wallet_bal(l0.wallets@, ctx.player) - amount
    &&& forall|id2: u64|
        id2 != ctx.player ==> wallet_bal(l1.wallets@, id2) == wallet_bal(l0.wallets@, id2)
    &&& vault_bal(l1.vaults@, ctx.game_authority) == vault_bal(l0.vaults@, ctx.game_authority)
        + amount
    &&& forall|a2: u64|
        a2 != ctx.game_authority ==> vault_bal(l1.vaults@, a2) == vault_bal(l0.vaults@, a2)
    &&& total_value(l1.wallets@, l1.vaults@) == total_value(l0.wallets@, l0.vaults@)
}

/// Reads the free balance of identity `id`; a missing wallet record holds
/// zero.
pub fn wallet_balance(wallets: &Vec<Wallet>, id: u64) -> (b: u64)
    requires
        wallets_unique(wallets@),
    ensures
        b == wallet_bal(wallets@, id),
{
    match find_wallet(wallets, id) {
        Some(i) => {
            proof {
                lemma_wallet_ix(wallets@, id, i as int);
            }
            wallets[i].balance
        },
        None => 0,
    }
}

/// After pushing a bet under a fresh (player, round) key, every other bet
/// observation is unchanged.
proof fn lemma_bet_frame_push(s0: Seq<Bet>, s1: Seq<Bet>, player: u64, round_id: u64)
    requires
        bets_unique(s0),
        !has_bet(s0, player, round_id),
        s1.len() == s0.len() + 1,
        forall|i: int| 0 <= i < s0.len() ==> s1[i] == s0[i],
        s1.last().player == player,
        s1.last().round_id == round_id,
    ensures
        bets_unique(s1),
        bet_at(s1, player, round_id) == Some(s1.last()),
        forall|p: u64, r2: u64|
            !(p == player && r2 == round_id) ==> bet_at(s1, p, r2) == bet_at(s0, p, r2),
{
    assert forall|a: int, b: int| #![trigger s1[a], s1[b]] 0 <= a < b < s1.len() implies !(s1[a].player
        == s1[b].player && s1[a].round_id == s1[b].round_id) by {
        if b < s0.len() {
            assert(s1[a] == s0[a] && s1[b] == s0[b]);
        } else {
            assert(s1[b] == s1.last());
            assert(s1[a] == s0[a]);
            if s1[a].player == player && s1[a].round_id == round_id {
                assert(has_bet(s0, player, round_id));
            }
        }
    }
    lemma_bet_ix(s1, player, round_id, s0.len() as int);
    assert forall|p: u64, r2: u64| !(p == player && r2 == round_id) implies bet_at(s1, p, r2)
        == bet_at(s0, p, r2) by {
        if has_bet(s0, p, r2) {
            let j = bet_ix(s0, p, r2);
            assert(0 <= j < s0.len() && s0[j].player == p && s0[j].round_id == r2);
            assert(s1[j] == s0[j]);
            lemma_bet_ix(s1, p, r2, j);
            lemma_bet_ix(s0, p, r2, j);
        } else {
            if has_bet(s1, p, r2) {
                let j = bet_ix(s1, p, r2);
                assert(0 <= j < s1.len() && s1[j].player == p && s1[j].round_id == r2);
                assert(j < s0.len());
                assert(has_bet(s0, p, r2));
            }
        }
    }
}

/// Places a bet: validates the terms in their stated order, atomically
/// moves the stake from the player's wallet into the game's vault, and
/// creates the pending bet record, stamped with the platform clock. On any
/// failure the ledger is left exactly as it was.
pub fn place_bet(
    l: &mut Ledger,
    ctx: PlaceBet,
    round_id: u64,
    amount: u64,
    zones: Vec<Zone>,
) -> (r: Result<(), LedgerError>)
    requires
        old(l).wf(),
    ensures
        final(l).wf(),
        r matches Ok(()) <==> place_err(*old(l), ctx, round_id, amount, zones@) is None,
        r matches Err(e) ==> Some(e) == place_err(*old(l), ctx, round_id, amount, zones@)
            && *final(l) == *old(l),
        r matches Ok(()) ==> place_ok_post(*old(l), *final(l), ctx, round_id, amount, zones@),
{
    // Account resolution: the game record and its bump, then the fresh bet
    // address.
    let gi = match find_game(&l.games, ctx.game_authority) {
        Some(i) => i,
        None => {
            return Err(LedgerError::RecordNotFound);
        },
    };
    proof {
        lemma_game_ix(l.games@, ctx.game_authority, gi as int);
    }
    if l.games[gi].bump != derive_bump(GAME_TAG, ctx.game_authority, 0) {
        return Err(LedgerError::RecordNotFound);
    }
    match find_bet(&l.bets, ctx.player, round_id) {
        Some(_) => {
            return Err(LedgerError::RecordAlreadyExists);
        },
        None => {},
    }
    // The argument checks, in their stated order.
    if amount == 0 {
        return Err(LedgerError::Program(SolamaError::InvalidAmount));
    }
    if zones.len() < 1 || zones.len() > 2 {
        return Err(LedgerError::Program(SolamaError::InvalidZoneCount));
    }
    match validate_zones(&zones) {
        Some(e) => {
            return Err(LedgerError::Program(e));
        },
        None => {},
    }
    // The stake transfer: the player's free balance must cover it.
    if wallet_balance(&l.wallets, ctx.player) < amount {
        return Err(LedgerError::InsufficientFunds);
    }
    proof {
        // The vault exists because its game does, and the transfer cannot
        // overflow it: both balances are bounded by the conserved total.
        assert(has_vault(l.vaults@, ctx.game_authority));
        let wi = wallet_ix(l.wallets@, ctx.player);
        assert(0 <= wi < l.wallets@.len() && l.wallets@[wi].id == ctx.player);
        lemma_sum_wallets_ge(l.wallets@, wi);
        lemma_sum_vaults_ge(l.vaults@, vault_ix(l.vaults@, ctx.game_authority));
    }
    let ghost w0 = l.wallets@;
    let ghost v0 = l.vaults@;
    let ghost b0 = l.bets@;
    debit_wallet(&mut l.wallets, ctx.player, amount);
    credit_vault(&mut l.vaults, ctx.game_authority, amount);
    let bump = derive_bump(BET_TAG, ctx.player, round_id);
    let nb = Bet {
        player: ctx.player,
        round_id,
        amount,
        zones,
        status: BetStatus::Pending,
        payout: 0,
        settled_price: 0,
        timestamp: l.clock,
        bump,
    };
    l.bets.push(nb);
    proof {
        let v1 = l.vaults@;
        let vix = vault_ix(v0, ctx.game_authority);
        // The vault update kept every key and bump, so record consistency
        // and the game-vault pairing survive.
        assert forall|i: int| 0 <= i < v1.len() implies vault_record_wf(#[trigger] v1[i])
            && has_game(l.games@, v1[i].key.owner) by {
            if i == vix {
                assert(v1[i].key == v0[i].key && v1[i].bump == v0[i].bump);
            } else {
                assert(v1[i] == v0[i]);
            }
            assert(vault_record_wf(v0[i]));
            assert(has_game(l.games@, v0[i].key.owner));
        }
        assert forall|i: int| 0 <= i < l.games@.len() implies has_vault(
            v1,
            (#[trigger] l.games@[i]).authority,
        ) by {
            assert(has_vault(v0, l.games@[i].authority));
        }
        // The new bet record is well-formed: its terms passed validation.
        lemma_zones_err_none(nb.zones@);
        lemma_bet_frame_push(b0, l.bets@, ctx.player, round_id);
        assert forall|i: int| 0 <= i < l.bets@.len() implies bet_record_wf(
            #[trigger] l.bets@[i],
        ) by {
            if i < b0.len() {
                assert(l.bets@[i] == b0[i]);
                assert(bet_record_wf(b0[i]));
            }
        }
    }
    Ok(())
}

// ------------------------------------------------------------------
// resolve_bet
// ------------------------------------------------------------------

/// The accounts a `resolve_bet` call touches: the game (named by its
/// authority), the signing caller, and the bet to settle, keyed by player
/// and round.
#[derive(Clone, Copy, PartialEq, Eq, Structural, Debug)]
pub struct ResolveBet {
    pub game_authority: u64,
    pub authority: u64,
    pub player: u64,
    pub round_id: u64,
}

/// The failure `resolve_bet` surfaces, or `None` when it succeeds (a bet
/// that misses every zone still resolves successfully, to `Lost`). An
/// insufficient vault leaves the bet pending, so resolution can be retried
/// once the vault is replenished.
pub open spec fn resolve_err(l: Ledger, ctx: ResolveBet, settled_price: u64) -> Option<
    LedgerError,
> {
    if !has_game(l.games@, ctx.game_authority) {
        Some(LedgerError::RecordNotFound)
    } else if ctx.authority != ctx.game_authority {
        Some(LedgerError::AccessDenied)
    } else if !has_bet(l.bets@, ctx.player, ctx.round_id) {
        Some(LedgerError::RecordNotFound)
    } else {
        let b = bet_at(l.bets@, ctx.player, ctx.round_id)->Some_0;
        let g = game_at(l.games@, ctx.game_authority)->Some_0;
        if b.status != BetStatus::Pending {
            Some(LedgerError::Program(SolamaError::BetAlreadyResolved))
        } else {
            match spec_first_match(b.zones@, settled_price) {
                None => None,
                Some(z) => {
                    if spec_payout_overflows(b.amount, z.multiplier_bps, g.fee_bps) {
                        Some(LedgerError::Program(SolamaError::MathOverflow))
                    } else if vault_bal(l.vaults@, ctx.game_authority) < spec_net(
                        b.amount,
                        z.multiplier_bps,
                        g.fee_bps,
                    ) {
                        Some(LedgerError::Program(SolamaError::InsufficientVault))
                    } else {
                        None
                    }
                },
            }
        }
    }
}

/// The bet record after a losing resolution: the settled price is
/// recorded, the payout is zero, everything else keeps its placed value.
pub open spec fn lost_bet(b: Bet, price: u64) -> Bet {
    Bet {
        player: b.player,
        round_id: b.round_id,
        amount: b.amount,
        zones: b.zones,
        status: BetStatus::Lost,
        payout: 0,
        settled_price: price,
        timestamp: b.timestamp,
        bump: b.bump,
    }
}

/// The bet record after a winning resolution with net payout `net`.
pub open spec fn won_bet(b: Bet, price: u64, net: u64) -> Bet {
    Bet {
        player: b.player,
        round_id: b.round_id,
        amount: b.amount,
        zones: b.zones,
        status: BetStatus::Won,
        payout: net,
        settled_price: price,
        timestamp: b.timestamp,
        bump: b.bump,
    }
}

/// The whole effect of a successful resolution. With a first-match zone:
/// the net payout (stake times the first matching zone's multiplier, less
/// the protocol fee) moves from the vault to the player, and the bet turns
/// `Won`. With no matching zone: the bet turns `Lost` with zero payout and
/// no value moves. Either way the settled price is recorded, nothing else
/// changes, and the value in the system is conserved.
pub open spec fn resolve_ok_post(l0: Ledger, l1: Ledger, ctx: ResolveBet, settled_price: u64) -> bool {
    let b = bet_at(l0.bets@, ctx.player, ctx.round_id)->Some_0;
    let g = game_at(l0.games@, ctx.game_authority)->Some_0;
    let bix = bet_ix(l0.bets@, ctx.player, ctx.round_id);
    &&& l1.games@ == l0.games@
    &&& l1.clock == l0.clock
    &&& match spec_first_match(b.zones@, settled_price) {
        None => {
            &&& l1.bets@ == l0.bets@.update(bix, lost_bet(b, settled_price))
            &&& bet_at(l1.bets@, ctx.player, ctx.round_id) == Some(lost_bet(b, settled_price))
            &&& l1.wallets@ == l0.wallets@
            &&& l1.vaults@ == l0.vaults@
        },
        Some(z) => {
            let net = spec_net(b.amount, z.multiplier_bps, g.fee_bps);
            &&& l1.bets@ == l0.bets@.update(bix, won_bet(b, settled_price, net as u64))
            &&& bet_at(l1.bets@, ctx.player, ctx.round_id) == Some(
                won_bet(b, settled_price, net as u64),
            )
            &&& vault_bal(l1.vaults@, ctx.game_authority) == vault_bal(
                l0.vaults@,
                ctx.game_authority,
            ) - net
            &&& forall|a2: u64|
                a2 != ctx.game_authority ==> vault_bal(l1.vaults@, a2) == vault_bal(l0.vaults@, a2)
            &&& wallet_bal(l1.wallets@, ctx.player) == wallet_bal(l0.wallets@, ctx.player) + net
            &&& forall|id2: u64|
                id2 != ctx.player ==> wallet_bal(l1.wallets@, id2) == wallet_bal(l0.wallets@, id2)
        },
    }
    &&& forall|p: u64, r2: u64|
        !(p == ctx.player && r2 == ctx.round_id) ==> bet_at(l1.bets@, p, r2) == bet_at(
            l0.bets@,
            p,
            r2,
        )
    &&& total_value(l1.wallets@, l1.vaults@) == total_value(l0.wallets@, l0.vaults@)
}

/// After replacing index `i` (which holds the bet for `(player,
/// round_id)`) with a bet under the same key, every other bet observation
/// is unchanged.
proof fn lemma_bet_frame_update(s0: Seq<Bet>, s1: Seq<Bet>, i: int, player: u64, round_id: u64)
    requires
        bets_unique(s0),
        0 <= i < s0.len(),
        s0[i].player == player,
        s0[i].round_id == round_id,
        s1 == s0.update(i, s1[i]),
        s1[i].player == player,
        s1[i].round_id == round_id,
    ensures
        bets_unique(s1),
        bet_at(s1, player, round_id) == Some(s1[i]),
        bet_ix(s1, player, round_id) == i,
        forall|p: u64, r2: u64|
            !(p == player && r2 == round_id) ==> bet_at(s1, p, r2) == bet_at(s0, p, r2),
{
    assert forall|a: int, b: int| #![trigger s1[a], s1[b]] 0 <= a < b < s1.len() implies !(s1[a].player
        == s1[b].player && s1[a].round_id == s1[b].round_id) by {
        assert(s1[a].player == s0[a].player && s1[a].round_id == s0[a].round_id);
        assert(s1[b].player == s0[b].player && s1[b].round_id == s0[b].round_id);
    }
    lemma_bet_ix(s1, player, round_id, i);
    assert forall|p: u64, r2: u64| !(p == player && r2 == round_id) implies bet_at(s1, p, r2)
        == bet_at(s0, p, r2) by {
        if has_bet(s0, p, r2) {
            let j = bet_ix(s0, p, r2);
            assert(0 <= j < s0.len() && s0[j].player == p && s0[j].round_id == r2);
            assert(j != i);
            assert(s1[j] == s0[j]);
            lemma_bet_ix(s1, p, r2, j);
            lemma_bet_ix(s0, p, r2, j);
        } else {
            if has_bet(s1, p, r2) {
                let j = bet_ix(s1, p, r2);
                assert(0 <= j < s1.len() && s1[j].player == p && s1[j].round_id == r2);
                assert(s0[j].player == p && s0[j].round_id == r2);
                assert(has_bet(s0, p, r2));
            }
        }
    }
}

/// Reads the escrow balance of `authority`'s vault; a missing vault holds
/// zero.
pub fn vault_balance(vaults: &Vec<Vault>, authority: u64) -> (b: u64)
    requires
        vaults_unique(vaults@),
    ensures
        b == vault_bal(vaults@, authority),
{
    match find_vault(vaults, authority) {
        Some(i) => {
            proof {
                lemma_vault_ix(vaults@, authority, i as int);
            }
            vaults[i].balance
        },
        None => 0,
    }
}

/// Resolves a pending bet against the settled price, as the game's
/// authority. The bet's zones are scanned in stored order and the first
/// one containing the price decides the payout; no match loses the bet.
/// Any failure — including an underfunded vault — leaves the whole ledger
/// exactly as it was, with the bet still pending where it was pending.
pub fn resolve_bet(l: &mut Ledger, ctx: ResolveBet, settled_price: u64) -> (r: Result<
    (),
    LedgerError,
>)
    requires
        old(l).wf(),
    ensures
        final(l).wf(),
        r matches Ok(()) <==> resolve_err(*old(l), ctx, settled_price) is None,
        r matches Err(e) ==> Some(e) == resolve_err(*old(l), ctx, settled_price) && *final(l)
            == *old(l),
        r matches Ok(()) ==> resolve_ok_post(*old(l), *final(l), ctx, settled_price),
{
    // Account resolution: the game, the authorization check, the bet; each
    // derived record's bump is re-checked against its seeds.
    let gi = match find_game(&l.games, ctx.game_authority) {
        Some(i) => i,
        None => {
            return Err(LedgerError::RecordNotFound);
        },
    };
    proof {
        lemma_game_ix(l.games@, ctx.game_authority, gi as int);
    }
    if l.games[gi].bump != derive_bump(GAME_TAG, ctx.game_authority, 0) {
        return Err(LedgerError::RecordNotFound);
    }
    if ctx.authority != ctx.game_authority {
        return Err(LedgerError::AccessDenied);
    }
    let bi = match find_bet(&l.bets, ctx.player, ctx.round_id) {
        Some(i) => i,
        None => {
            return Err(LedgerError::RecordNotFound);
        },
    };
    proof {
        lemma_bet_ix(l.bets@, ctx.player, ctx.round_id, bi as int);
    }
    if l.bets[bi].bump != derive_bump(BET_TAG, ctx.player, ctx.round_id) {
        return Err(LedgerError::RecordNotFound);
    }
    if l.bets[bi].status != BetStatus::Pending {
        return Err(LedgerError::Program(SolamaError::BetAlreadyResolved));
    }
    let ghost b = l.bets@[bi as int];
    let mh = first_match(&l.bets[bi].zones, settled_price);
    let bet_amount = l.bets[bi].amount;
    let fee_bps = l.games[gi].fee_bps;
    match mh {
        None => {
            let ghost b0 = l.bets@;
            l.bets[bi].status = BetStatus::Lost;
            l.bets[bi].payout = 0;
            l.bets[bi].settled_price = settled_price;
            proof {
                assert(l.bets@ =~= b0.update(bi as int, lost_bet(b, settled_price)));
                lemma_bet_frame_update(b0, l.bets@, bi as int, ctx.player, ctx.round_id);
                assert forall|i: int| 0 <= i < l.bets@.len() implies bet_record_wf(
                    #[trigger] l.bets@[i],
                ) by {
                    if i != bi as int {
                        assert(l.bets@[i] == b0[i]);
                    }
                    assert(bet_record_wf(b0[i]));
                }
            }
            Ok(())
        },
        Some(z) => {
            let (gross, fee, net) = match compute_payout(bet_amount, z.multiplier_bps, fee_bps) {
                Ok(t) => t,
                Err(e) => {
                    return Err(LedgerError::Program(e));
                },
            };
            let vi = match find_vault(&l.vaults, ctx.game_authority) {
                Some(i) => i,
                None => {
                    proof {
                        assert(has_vault(l.vaults@, ctx.game_authority));
                    }
                    return Err(LedgerError::RecordNotFound);
                },
            };
            proof {
                lemma_vault_ix(l.vaults@, ctx.game_authority, vi as int);
            }
            if l.vaults[vi].bump != derive_bump(VAULT_TAG, ctx.game_authority, 0) {
                return Err(LedgerError::RecordNotFound);
            }
            if l.vaults[vi].balance < net {
                return Err(LedgerError::Program(SolamaError::InsufficientVault));
            }
            proof {
                // The payout cannot overflow the player's wallet: vault and
                // wallet balances are both bounded by the conserved total.
                lemma_sum_vaults_ge(l.vaults@, vi as int);
                if has_wallet(l.wallets@, ctx.player) {
                    lemma_sum_wallets_ge(l.wallets@, wallet_ix(l.wallets@, ctx.player));
                } else {
                    lemma_sum_wallets_nonneg(l.wallets@);
                }
            }
            let ghost w0 = l.wallets@;
            let ghost v0 = l.vaults@;
            let ghost b0 = l.bets@;
            debit_vault(&mut l.vaults, ctx.game_authority, net);
            credit_wallet(&mut l.wallets, ctx.player, net);
            l.bets[bi].status = BetStatus::Won;
            l.bets[bi].payout = net;
            l.bets[bi].settled_price = settled_price;
            proof {
                let v1 = l.vaults@;
                let vix = vault_ix(v0, ctx.game_authority);
                assert(l.bets@ =~= b0.update(bi as int, won_bet(b, settled_price, net)));
                lemma_bet_frame_update(b0, l.bets@, bi as int, ctx.player, ctx.round_id);
                assert forall|i: int| 0 <= i < l.bets@.len() implies bet_record_wf(
                    #[trigger] l.bets@[i],
                ) by {
                    if i != bi as int {
                        assert(l.bets@[i] == b0[i]);
                    }
                    assert(bet_record_wf(b0[i]));
                }
                assert forall|i: int| 0 <= i < v1.len() implies vault_record_wf(#[trigger] v1[i])
                    && has_game(l.games@, v1[i].key.owner) by {
                    if i == vix {
                        assert(v1[i].key == v0[i].key && v1[i].bump == v0[i].bump);
                    } else {
                        assert(v1[i] == v0[i]);
                    }
                    assert(vault_record_wf(v0[i]));
                    assert(has_game(l.games@, v0[i].key.owner));
                }
                assert forall|i: int| 0 <= i < l.games@.len() implies has_vault(
                    v1,
                    (#[trigger] l.games@[i]).authority,
                ) by {
                    assert(has_vault(v0, l.games@[i].authority));
                }
            }
            Ok(())
        },
    }
}

// ------------------------------------------------------------------
// withdraw_fees
// ------------------------------------------------------------------

/// The accounts a `withdraw_fees` call touches: the game (named by its
/// authority) and the signing caller, who receives the value.
#[derive(Clone, Copy, PartialEq, Eq, Structural, Debug)]
pub struct WithdrawFees {
    pub game_authority: u64,
    pub authority: u64,
}

/// The failure `withdraw_fees` surfaces, or `None` when it succeeds.
pub open spec fn withdraw_err(l: Ledger, ctx: WithdrawFees, amount: u64) -> Option<LedgerError> {
    if !has_game(l.games@, ctx.game_authority) {
        Some(LedgerError::RecordNotFound)
    } else if ctx.authority != ctx.game_authority {
        Some(LedgerError::AccessDenied)
    } else if amount == 0 {
        Some(LedgerError::Program(SolamaError::InvalidAmount))
    } else if vault_bal(l.vaults@, ctx.game_authority) < amount {
        Some(LedgerError::Program(SolamaError::InsufficientVault))
    } else {
        None
    }
}

/// The whole effect of a successful withdrawal: exactly `amount` moves
/// from the vault to the authority's free balance, nothing else changes,
/// and the value in the system is conserved. The vault is a single
/// undifferentiated pool: nothing stops the authority from withdrawing
/// value still backing pending bets.
pub open spec fn withdraw_ok_post(l0: Ledger, l1: Ledger, ctx: WithdrawFees, amount: u64) -> bool {
    &&& l1.games@ == l0.games@
    &&& l1.bets@ == l0.bets@
    &&& l1.clock == l0.clock
    &&& vault_bal(l1.vaults@, ctx.game_authority) == vault_bal(l0.vaults@, ctx.game_authority)
        - amount
    &&& forall|a2: u64|
        a2 != ctx.game_authority ==> vault_bal(l1.vaults@, a2) == vault_bal(l0.vaults@, a2)
    &&& wallet_bal(l1.wallets@, ctx.authority) == wallet_bal(l0.wallets@, ctx.authority) + amount
    &&& forall|id2: u64|
        id2 != ctx.authority ==> wallet_bal(l1.wallets@, id2) == wallet_bal(l0.wallets@, id2)
    &&& total_value(l1.wallets@, l1.vaults@) == total_value(l0.wallets@, l0.vaults@)
}

/// Withdraws accumulated surplus from the vault to the game's authority.
/// Fails, changing nothing, on a zero amount or a vault balance below the
/// requested amount.
pub fn withdraw_fees(l: &mut Ledger, ctx: WithdrawFees, amount: u64) -> (r: Result<
    (),
    LedgerError,
>)
    requires
        old(l).wf(),
    ensures
        final(l).wf(),
        r matches Ok(()) <==> withdraw_err(*old(l), ctx, amount) is None,
        r matches Err(e) ==> Some(e) == withdraw_err(*old(l), ctx, amount) && *final(l) == *old(l),
        r matches Ok(()) ==> withdraw_ok_post(*old(l), *final(l), ctx, amount),
{
    let gi = match find_game(&l.games, ctx.game_authority) {
        Some(i) => i,
        None => {
            return Err(LedgerError::RecordNotFound);
        },
    };
    proof {
        lemma_game_ix(l.games@, ctx.game_authority, gi as int);
    }
    if l.games[gi].bump != derive_bump(GAME_TAG, ctx.game_authority, 0) {
        return Err(LedgerError::RecordNotFound);
    }
    if ctx.authority != ctx.game_authority {
        return Err(LedgerError::AccessDenied);
    }
    if amount == 0 {
        return Err(LedgerError::Program(SolamaError::InvalidAmount));
    }
    let vi = match find_vault(&l.vaults, ctx.game_authority) {
        Some(i) => i,
        None => {
            proof {
                assert(has_vault(l.vaults@, ctx.game_authority));
            }
            return Err(LedgerError::RecordNotFound);
        },
    };
    proof {
        lemma_vault_ix(l.vaults@, ctx.game_authority, vi as int);
    }
    if l.vaults[vi].bump != derive_bump(VAULT_TAG, ctx.game_authority, 0) {
        return Err(LedgerError::RecordNotFound);
    }
    if l.vaults[vi].balance < amount {
        return Err(LedgerError::Program(SolamaError::InsufficientVault));
    }
    proof {
        lemma_sum_vaults_ge(l.vaults@, vi as int);
        if has_wallet(l.wallets@, ctx.authority) {
            lemma_sum_wallets_ge(l.wallets@, wallet_ix(l.wallets@, ctx.authority));
        } else {
            lemma_sum_wallets_nonneg(l.wallets@);
        }
    }
    let ghost w0 = l.wallets@;
    let ghost v0 = l.vaults@;
    debit_vault(&mut l.vaults, ctx.game_authority, amount);
    credit_wallet(&mut l.wallets, ctx.authority, amount);
    proof {
        let v1 = l.vaults@;
        let vix = vault_ix(v0, ctx.game_authority);
        assert forall|i: int| 0 <= i < v1.len() implies vault_record_wf(#[trigger] v1[i])
            && has_game(l.games@, v1[i].key.owner) by {
            if i == vix {
                assert(v1[i].key == v0[i].key && v1[i].bump == v0[i].bump);
            } else {
                assert(v1[i] == v0[i]);
            }
            assert(vault_record_wf(v0[i]));
            assert(has_game(l.games@, v0[i].key.owner));
        }
        assert forall|i: int| 0 <= i < l.games@.len() implies has_vault(
            v1,
            (#[trigger] l.games@[i]).authority,
        ) by {
            assert(has_vault(v0, l.games@[i].authority));
        }
    }
    Ok(())
}

// ------------------------------------------------------------------
// Laws relating several operations
// ------------------------------------------------------------------

/// Initialization is not repeatable: after a successful `initialize` for
/// an authority, a game for that authority exists and holds the fee rate
/// stored verbatim by that first call — so by `initialize`'s contract any
/// further call for the same authority fails with `RecordAlreadyExists`
/// and leaves the ledger, in particular the stored fee rate, untouched.
pub proof fn lemma_initialize_once(l0: Ledger, l1: Ledger, a: u64, fee_bps: u16)
    requires
        l0.wf(),
        !has_game(l0.games@, a),
        l1.games@ == l0.games@.push(spec_new_game(a, fee_bps)),
    ensures
        has_game(l1.games@, a),
        game_at(l1.games@, a) == Some(spec_new_game(a, fee_bps)),
        game_at(l1.games@, a)->Some_0.fee_bps == fee_bps,
{
    let g1 = l1.games@;
    let g0 = l0.games@;
    assert forall|x: int, y: int| #![trigger g1[x], g1[y]] 0 <= x < y < g1.len() implies g1[x].authority
        != g1[y].authority by {
        if y < g0.len() {
            assert(g1[x] == g0[x] && g1[y] == g0[y]);
        } else {
            assert(g1[y].authority == a && g1[x] == g0[x]);
            if g0[x].authority == a {
                assert(has_game(g0, a));
            }
        }
    }
    lemma_game_ix(g1, a, g0.len() as int);
}

/// A bet reaches a terminal outcome at most once: after a successful
/// resolution, any further `resolve_bet` for the same bet, at any price,
/// fails with `BetAlreadyResolved` — and by `resolve_bet`'s contract such
/// a failed call leaves the ledger, in particular the bet's status and
/// payout, untouched.
pub proof fn lemma_resolve_at_most_once(
    l0: Ledger,
    l1: Ledger,
    ctx: ResolveBet,
    price1: u64,
    price2: u64,
)
    requires
        l0.wf(),
        resolve_err(l0, ctx, price1) is None,
        resolve_ok_post(l0, l1, ctx, price1),
    ensures
        resolve_err(l1, ctx, price2) == Some(
            LedgerError::Program(SolamaError::BetAlreadyResolved),
        ),
{
    let b = bet_at(l0.bets@, ctx.player, ctx.round_id)->Some_0;
    let g = game_at(l0.games@, ctx.game_authority)->Some_0;
    let bix = bet_ix(l0.bets@, ctx.player, ctx.round_id);
    assert(has_bet(l0.bets@, ctx.player, ctx.round_id));
    assert(0 <= bix < l0.bets@.len() && l0.bets@[bix].player == ctx.player
        && l0.bets@[bix].round_id == ctx.round_id);
    match spec_first_match(b.zones@, price1) {
        None => {
            lemma_bet_frame_update(l0.bets@, l1.bets@, bix, ctx.player, ctx.round_id);
            assert(bet_at(l1.bets@, ctx.player, ctx.round_id)->Some_0.status == BetStatus::Lost);
        },
        Some(z) => {
            lemma_bet_frame_update(l0.bets@, l1.bets@, bix, ctx.player, ctx.round_id);
            assert(bet_at(l1.bets@, ctx.player, ctx.round_id)->Some_0.status == BetStatus::Won);
        },
    }
}

/// After updating index `i` (which holds `id`) without changing its id,
/// every other wallet observation is unchanged.
proof fn lemma_wallet_frame_update(s0: Seq<Wallet>, s1: Seq<Wallet>, i: int, id: u64)
    requires
        wallets_unique(s0),
        0 <= i < s0.len(),
        s0[i].id == id,
        s1 == s0.update(i, Wallet { id, balance: s1[i].balance }),
    ensures
        wallets_unique(s1),
        forall|id2: u64| id2 != id ==> wallet_bal(s1, id2) == wallet_bal(s0, id2),
        forall|id2: u64| id2 != id ==> has_wallet(s1, id2) == has_wallet(s0, id2),
        has_wallet(s1, id),
        wallet_ix(s1, id) == i,
{
    assert forall|a: int, b: int| #![trigger s1[a], s1[b]] 0 <= a < b < s1.len() implies s1[a].id
        != s1[b].id by {
        assert(s0[a].id == s1[a].id && s0[b].id == s1[b].id);
    }
    lemma_wallet_ix(s1, id, i);
    assert forall|id2: u64| id2 != id implies has_wallet(s1, id2) == has_wallet(s0, id2)
        && wallet_bal(s1, id2) == wallet_bal(s0, id2) by {
        if has_wallet(s0, id2) {
            let j = wallet_ix(s0, id2);
            assert(0 <= j < s0.len() && s0[j].id == id2);
            assert(j != i);
            assert(s1[j] == s0[j]);
            lemma_wallet_ix(s1, id2, j);
            lemma_wallet_ix(s0, id2, j);
        } else {
            if has_wallet(s1, id2) {
                let j = wallet_ix(s1, id2);
                assert(0 <= j < s1.len() && s1[j].id == id2);
                assert(s0[j].id == id2);
                assert(has_wallet(s0, id2));
            }
        }
    }
}

/// After pushing a fresh wallet for `id`, every other wallet observation is
/// unchanged.
proof fn lemma_wallet_frame_push(s0: Seq<Wallet>, s1: Seq<Wallet>, id: u64)
    requires
        wallets_unique(s0),
        !has_wallet(s0, id),
        s1 == s0.push(Wallet { id, balance: s1.last().balance }),
    ensures
        wallets_unique(s1),
        forall|id2: u64| id2 != id ==> wallet_bal(s1, id2) == wallet_bal(s0, id2),
        forall|id2: u64| id2 != id ==> has_wallet(s1, id2) == has_wallet(s0, id2),
        has_wallet(s1, id),
        wallet_ix(s1, id) == s0.len(),
{
    assert forall|a: int, b: int| #![trigger s1[a], s1[b]] 0 <= a < b < s1.len() implies s1[a].id
        != s1[b].id by {
        if b < s0.len() {
            assert(s0[a].id == s1[a].id && s0[b].id == s1[b].id);
        } else {
            assert(s1[b].id == id);
            assert(s1[a] == s0[a]);
            if s1[a].id == id {
                assert(has_wallet(s0, id));
            }
        }
    }
    lemma_wallet_ix(s1, id, s0.len() as int);
    assert forall|id2: u64| id2 != id implies has_wallet(s1, id2) == has_wallet(s0, id2)
        && wallet_bal(s1, id2) == wallet_bal(s0, id2) by {
        if has_wallet(s0, id2) {
            let j = wallet_ix(s0, id2);
            assert(0 <= j < s0.len() && s0[j].id == id2);
            assert(s1[j] == s0[j]);
            lemma_wallet_ix(s1, id2, j);
            lemma_wallet_ix(s0, id2, j);
        } else {
            if has_wallet(s1, id2) {
                let j = wallet_ix(s1, id2);
                assert(0 <= j < s1.len() && s1[j].id == id2);
                assert(j < s0.len());
                assert(has_wallet(s0, id2));
            }
        }
    }
}

} // verus!
