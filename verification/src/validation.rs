//! What the validation of a transaction asks of the program state: that the
//! cashiers it names are registered, that the roots it was proved against are
//! roots that the tree has had, and that the coins it spends were not spent
//! before. The proofs themselves are checked elsewhere, with the verifying keys
//! that the state holds.

use crate::crypto::keys::PublicKey;
use crate::crypto::merkle_node::MerkleNode;
use crate::crypto::nullifier::Nullifier;
use crate::state::{none_spent, Ledger, State};
use crate::wallet::holds_key;
use vstd::prelude::*;

verus! {

/// What a transaction reveals of one coin that it spends: the root of the tree
/// that the spend was proved against, and the nullifier of the coin.
#[derive(Debug, Clone, Copy)]
pub struct SpendClaim {
    pub merkle_root: MerkleNode,
    pub nullifier: Nullifier,
}

/// Why the state refuses a transaction. The number is the place of the input
/// that is refused.
#[derive(Debug, Clone, Copy, PartialEq, Eq, Structural)]
pub enum VerifyFailed {
    /// The key of this clear input is not the key of a registered cashier.
    InvalidCashierKey(usize),
    /// The tree has never had the root that this input was proved against.
    InvalidMerkle(usize),
    /// The coin of this input was spent before.
    DuplicateNullifier(usize),
}

/// Whether each of the first `n` of `keys` is the key of one of `cashiers`.
pub open spec fn all_cashiers(cashiers: Seq<PublicKey>, keys: Seq<PublicKey>, n: int) -> bool {
    forall|i: int| 0 <= i < n ==> holds_key(cashiers, #[trigger] keys[i]@)
}

/// Whether the ledger has had the root of `claim` and has not seen its nullifier.
pub open spec fn is_sound(ledger: Ledger, claim: SpendClaim) -> bool {
    ledger.roots.contains(claim.merkle_root@) && !ledger.nullifiers.contains(claim.nullifier@)
}

/// Whether each of the first `n` of `claims` is sound.
pub open spec fn all_sound(ledger: Ledger, claims: Seq<SpendClaim>, n: int) -> bool {
    forall|i: int| 0 <= i < n ==> is_sound(ledger, #[trigger] claims[i])
}

/// The nullifiers of `claims`, in order.
pub open spec fn nullifiers_of(claims: Seq<SpendClaim>) -> Seq<Nullifier> {
    Seq::new(claims.len(), |i: int| claims[i].nullifier)
}

/// Spends that are sound spend no coin twice: none of their nullifiers is in the
/// set of nullifiers, so that the update they leave is not refused for one.
pub proof fn lemma_sound_spends_are_unspent(ledger: Ledger, claims: Seq<SpendClaim>)
    requires
        all_sound(ledger, claims, claims.len() as int),
    ensures
        none_spent(nullifiers_of(claims), ledger.nullifiers, claims.len() as int),
{
    assert forall|j: int| 0 <= j < claims.len() implies !ledger.nullifiers.contains(
        #[trigger] nullifiers_of(claims)[j]@,
    ) by {
        assert(is_sound(ledger, claims[j]));
    }
}

/// Holds what a transaction refers to against the state: first the keys of its
/// clear inputs, in their order, then its spends, in their order, of each the
/// root before the nullifier. The first that fails is told.
pub fn check_references<K>(
    state: &State<K>,
    clear_inputs: &Vec<PublicKey>,
    spends: &Vec<SpendClaim>,
) -> (r: Result<(), VerifyFailed>)
    requires
        state.wf(),
    ensures
        match r {
            Ok(()) => {
                &&& all_cashiers(state.cashiers(), clear_inputs@, clear_inputs.len() as int)
                &&& all_sound(state@, spends@, spends.len() as int)
            },
            Err(VerifyFailed::InvalidCashierKey(i)) => {
                &&& i < clear_inputs.len()
                &&& all_cashiers(state.cashiers(), clear_inputs@, i as int)
                &&& !holds_key(state.cashiers(), clear_inputs[i as int]@)
            },
            Err(VerifyFailed::InvalidMerkle(i)) => {
                &&& all_cashiers(state.cashiers(), clear_inputs@, clear_inputs.len() as int)
                &&& i < spends.len()
                &&& all_sound(state@, spends@, i as int)
                &&& !state@.roots.contains(spends[i as int].merkle_root@)
            },
            Err(VerifyFailed::DuplicateNullifier(i)) => {
                &&& all_cashiers(state.cashiers(), clear_inputs@, clear_inputs.len() as int)
                &&& i < spends.len()
                &&& all_sound(state@, spends@, i as int)
                &&& state@.roots.contains(spends[i as int].merkle_root@)
                &&& state@.nullifiers.contains(spends[i as int].nullifier@)
            },
        },
{
    let mut i: usize = 0;
    while i < clear_inputs.len()
        invariant
            i <= clear_inputs.len(),
            all_cashiers(state.cashiers(), clear_inputs@, i as int),
        decreases clear_inputs.len() - i,
    {
        if !state.is_valid_cashier_public_key(&clear_inputs[i]) {
            return Err(VerifyFailed::InvalidCashierKey(i));
        }
        i = i + 1;
    }
    let mut j: usize = 0;
    while j < spends.len()
        invariant
            j <= spends.len(),
            state.wf(),
            all_cashiers(state.cashiers(), clear_inputs@, clear_inputs.len() as int),
            all_sound(state@, spends@, j as int),
        decreases spends.len() - j,
    {
        if !state.is_valid_merkle(&spends[j].merkle_root) {
            return Err(VerifyFailed::InvalidMerkle(j));
        }
        if state.nullifier_exists(&spends[j].nullifier) {
            return Err(VerifyFailed::DuplicateNullifier(j));
        }
        j = j + 1;
    }
    Ok(())
}

} // verus!
