//! The decisions of the event broker: what each event does to the program state
//! and what it asks of the outside.
//!
//! The broker is the one task that owns the program state. It waits for events
//! from the network and from the user, hands each to `step`, and carries out the
//! action that comes back: it answers a rejected transaction, asks the cashier
//! and replies, or has a transfer built and sent. Nothing else changes the state.

use crate::address::{decode_public_key, key_of_text, AddressError};
use crate::cli::TransferParams;
use crate::crypto::keys::{PublicKey, SecretKey};
use crate::crypto::note::{EncryptedNote, Note};
use crate::state::{has_room, is_applied, none_spent, ApplyError, State, StateUpdate};
use crate::wallet::{owned_view, OwnCoin, Owned};
use vstd::prelude::*;

verus! {

/// The sum of what the notes of `owned` are worth.
pub open spec fn total_value(owned: Seq<Owned>) -> nat
    decreases owned.len(),
{
    if owned.len() == 0 {
        0
    } else {
        total_value(owned.drop_last()) + owned.last().note.value as nat
    }
}

/// Why a transfer was not planned.
#[derive(Debug, Clone, Copy, PartialEq, Eq, Structural)]
pub enum TransferError {
    /// The recipient's key could not be read.
    InvalidAddress(AddressError),
    /// The coins of the wallet are worth less than the amount.
    InsufficientFunds,
}

/// A transfer that the wallet can pay for: the recipient and the amount.
#[derive(Debug, Clone, Copy, PartialEq, Eq)]
pub struct TransferPlan {
    pub recipient: PublicKey,
    pub amount: u64,
}

/// What the request for a transfer comes to, for a wallet that owns `owned`.
pub open spec fn planned(owned: Seq<Owned>, pub_key: Seq<char>, amount: u64) -> Result<
    (Seq<u8>, u64),
    TransferError,
> {
    match key_of_text(pub_key) {
        Err(e) => Err(TransferError::InvalidAddress(e)),
        Ok(key) => if total_value(owned) < amount {
            Err(TransferError::InsufficientFunds)
        } else {
            Ok((key, amount))
        },
    }
}

/// Whether `r` is the plan, or the refusal, that `wanted` says.
pub open spec fn is_plan_result(
    r: Result<TransferPlan, TransferError>,
    wanted: Result<(Seq<u8>, u64), TransferError>,
) -> bool {
    match r {
        Ok(plan) => wanted == Ok::<(Seq<u8>, u64), TransferError>((plan.recipient@, plan.amount)),
        Err(e) => wanted == Err::<(Seq<u8>, u64), TransferError>(e),
    }
}

/// What the coins in `coins` are worth together.
pub fn balance(coins: &Vec<OwnCoin>) -> (r: u128)
    ensures
        r == total_value(owned_view(coins@)),
{
    let ghost owned = owned_view(coins@);
    let mut acc: u128 = 0;
    let mut i: usize = 0;
    while i < coins.len()
        invariant
            i <= coins.len(),
            owned == owned_view(coins@),
            acc == total_value(owned.take(i as int)),
            acc <= i * u64::MAX,
        decreases coins.len() - i,
    {
        let ghost next = owned.take(i + 1);
        assert(next.drop_last() =~= owned.take(i as int));
        assert((i + 1) * u64::MAX == i * u64::MAX + u64::MAX) by (nonlinear_arith);
        assert(i * u64::MAX <= usize::MAX * u64::MAX) by (nonlinear_arith)
            requires
                i <= usize::MAX,
        ;
        acc = acc + coins[i].note.value as u128;
        i = i + 1;
    }
    assert(owned.take(i as int) =~= owned);
    acc
}

/// Plans the transfer that `params` asks for: reads the recipient's key, then sees
/// whether the coins of the wallet are worth the amount. Every coin that the
/// wallet has found counts: which of them are spent is for the builder of the
/// transfer to know.
pub fn plan_transfer<K>(state: &State<K>, params: &TransferParams) -> (r: Result<
    TransferPlan,
    TransferError,
>)
    ensures
        is_plan_result(r, planned(state@.owned, params.pub_key@, params.amount)),
{
    let recipient = match decode_public_key(params.pub_key.as_str()) {
        Ok(key) => key,
        Err(e) => {
            return Err(TransferError::InvalidAddress(e));
        },
    };
    let funds = balance(state.wallet().own_coins());
    proof {
        state.lemma_owned_is_wallet_view();
    }
    if funds < params.amount as u128 {
        return Err(TransferError::InsufficientFunds);
    }
    Ok(TransferPlan { recipient, amount: params.amount })
}

/// What the broker is told.
#[derive(Debug)]
pub enum Event {
    /// A confirmed transaction came from the network: what its validation left to
    /// apply, or nothing where it could not be decoded or did not pass.
    Transaction(Option<StateUpdate>),
    /// The user asks for an address to deposit to, for this key.
    DepositRequested(PublicKey),
    /// The user asks to withdraw to this address.
    WithdrawRequested(String),
    /// The user asks for a transfer.
    TransferRequested(TransferParams),
}

/// Why a transaction did not change the state.
#[derive(Debug, Clone, Copy, PartialEq, Eq, Structural)]
pub enum Rejection {
    /// It could not be decoded, or its validation refused it.
    Invalid,
    /// Its update was refused.
    Refused(ApplyError),
}

/// What the broker is to do next.
#[derive(Debug)]
pub enum Action {
    /// Nothing: the transaction was applied.
    Applied,
    /// Report that the transaction was rejected, and go on.
    Reject(Rejection),
    /// Ask the cashier for a deposit address for this key, and send what it
    /// answers, or nothing if it cannot be reached, on the reply channel.
    AskDepositAddress(PublicKey),
    /// Ask the cashier to withdraw to this address, and send the key that it
    /// answers with, or nothing if it cannot be reached, on the reply channel.
    AskWithdrawKey(String),
    /// Have the transfer built from the coins of the wallet, and submit it.
    BuildTransfer(TransferPlan),
    /// Report that the transfer was refused, and go on.
    RefuseTransfer(TransferError),
}

/// Takes one event: the decisions that the broker makes between two waits. Only a
/// transaction that is applied changes the state; every other event leaves it
/// as it was.
pub fn step<K, F: Fn(&EncryptedNote, &SecretKey) -> Option<Note>>(
    state: &mut State<K>,
    event: Event,
    decrypt: &F,
) -> (action: Action)
    requires
        old(state).wf(),
        forall|c: &EncryptedNote, s: &SecretKey| decrypt.requires((c, s)),
    ensures
        final(state).wf(),
        final(state).keeps_setting(old(state)),
        match event {
            Event::Transaction(None) => {
                &&& action == Action::Reject(Rejection::Invalid)
                &&& *final(state) == *old(state)
            },
            Event::Transaction(Some(update)) => match action {
                Action::Applied => {
                    &&& none_spent(
                        update.nullifiers@,
                        old(state)@.nullifiers,
                        update.nullifiers.len() as int,
                    )
                    &&& has_room(old(state)@.leaves, old(state).height(), update)
                    &&& exists|outcomes: Seq<Option<(Note, SecretKey)>>| #[trigger]
                        is_applied(
                            decrypt,
                            old(state).secret_keys(),
                            old(state).height(),
                            old(state)@,
                            update,
                            outcomes,
                            final(state)@,
                        )
                },
                Action::Reject(Rejection::Refused(ApplyError::DuplicateNullifier(i))) => {
                    &&& i < update.nullifiers.len()
                    &&& old(state)@.nullifiers.contains(update.nullifiers[i as int]@)
                    &&& none_spent(update.nullifiers@, old(state)@.nullifiers, i as int)
                    &&& *final(state) == *old(state)
                },
                Action::Reject(Rejection::Refused(ApplyError::TreeFull)) => {
                    &&& none_spent(
                        update.nullifiers@,
                        old(state)@.nullifiers,
                        update.nullifiers.len() as int,
                    )
                    &&& !has_room(old(state)@.leaves, old(state).height(), update)
                    &&& *final(state) == *old(state)
                },
                _ => false,
            },
            Event::DepositRequested(key) => {
                &&& action == Action::AskDepositAddress(key)
                &&& *final(state) == *old(state)
            },
            Event::WithdrawRequested(address) => {
                &&& action == Action::AskWithdrawKey(address)
                &&& *final(state) == *old(state)
            },
            Event::TransferRequested(params) => {
                &&& *final(state) == *old(state)
                &&& match action {
                    Action::BuildTransfer(plan) => is_plan_result(
                        Ok(plan),
                        planned(old(state)@.owned, params.pub_key@, params.amount),
                    ),
                    Action::RefuseTransfer(e) => is_plan_result(
                        Err(e),
                        planned(old(state)@.owned, params.pub_key@, params.amount),
                    ),
                    _ => false,
                }
            },
        },
{
    match event {
        Event::Transaction(None) => Action::Reject(Rejection::Invalid),
        Event::Transaction(Some(update)) => match state.try_apply(update, decrypt) {
            Ok(()) => Action::Applied,
            Err(e) => Action::Reject(Rejection::Refused(e)),
        },
        Event::DepositRequested(key) => Action::AskDepositAddress(key),
        Event::WithdrawRequested(address) => Action::AskWithdrawKey(address),
        Event::TransferRequested(params) => match plan_transfer(state, &params) {
            Ok(plan) => Action::BuildTransfer(plan),
            Err(e) => Action::RefuseTransfer(e),
        },
    }
}

} // verus!
