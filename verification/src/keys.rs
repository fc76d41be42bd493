use vstd::prelude::*;

verus! {

/// Namespace tag for the per-authority game record.
pub const GAME_TAG: u8 = 1;

/// Namespace tag for the escrow vault record paired with a game.
pub const VAULT_TAG: u8 = 2;

/// Namespace tag for a per-(player, round) bet record.
pub const BET_TAG: u8 = 3;

/// A deterministic record address: a namespace tag plus the owner and round
/// seeds. Distinct seed tuples give distinct keys by construction, so
/// derived addresses cannot collide.
#[derive(Clone, Copy, PartialEq, Eq, Structural, Debug)]
pub struct RecordKey {
    pub tag: u8,
    pub owner: u64,
    pub round: u64,
}

/// The disambiguation byte paired with a derived address. It is stored with
/// the record when the record is created and re-derived and compared on
/// every later access; a mismatch fails closed.
pub open spec fn spec_bump(tag: u8, owner: u64, round: u64) -> u8 {
    (((owner ^ round) & 0xff) as u8) ^ tag
}

/// The address of the game record owned by `authority`.
pub open spec fn spec_game_key(authority: u64) -> RecordKey {
    RecordKey { tag: GAME_TAG, owner: authority, round: 0 }
}

/// The address of the escrow vault paired with `authority`'s game.
pub open spec fn spec_vault_key(authority: u64) -> RecordKey {
    RecordKey { tag: VAULT_TAG, owner: authority, round: 0 }
}

/// The address of the bet record for `(player, round_id)`.
pub open spec fn spec_bet_key(player: u64, round_id: u64) -> RecordKey {
    RecordKey { tag: BET_TAG, owner: player, round: round_id }
}

/// Derives the disambiguation byte for a seed tuple.
pub fn derive_bump(tag: u8, owner: u64, round: u64) -> (b: u8)
    ensures
        b == spec_bump(tag, owner, round),
{
    (((owner ^ round) & 0xff) as u8) ^ tag
}

/// Derives the address of the game record owned by `authority`.
pub fn game_key(authority: u64) -> (k: RecordKey)
    ensures
        k == spec_game_key(authority),
{
    RecordKey { tag: GAME_TAG, owner: authority, round: 0 }
}

/// Derives the address of the escrow vault paired with `authority`'s game.
pub fn vault_key(authority: u64) -> (k: RecordKey)
    ensures
        k == spec_vault_key(authority),
{
    RecordKey { tag: VAULT_TAG, owner: authority, round: 0 }
}

/// Derives the address of the bet record for `(player, round_id)`.
pub fn bet_key(player: u64, round_id: u64) -> (k: RecordKey)
    ensures
        k == spec_bet_key(player, round_id),
{
    RecordKey { tag: BET_TAG, owner: player, round: round_id }
}

/// Derivation is collision-resistant by construction: two seed tuples that
/// differ anywhere derive distinct addresses.
pub proof fn lemma_keys_injective(t1: u8, o1: u64, r1: u64, t2: u8, o2: u64, r2: u64)
    requires
        t1 != t2 || o1 != o2 || r1 != r2,
    ensures
        (RecordKey { tag: t1, owner: o1, round: r1 }) != (RecordKey { tag: t2, owner: o2, round: r2 }),
{
}

} // verus!
