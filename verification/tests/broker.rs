use drk::address::{decode_public_key, public_key_from_bytes, AddressError};
use drk::broker::{
    balance, plan_transfer, step, Action, Event, Rejection, TransferError, TransferPlan,
};
use drk::cli::TransferParams;
use drk::crypto::coin::Coin;
use drk::crypto::keys::{PublicKey, SecretKey};
use drk::crypto::note::{EncryptedNote, Note};
use drk::crypto::nullifier::Nullifier;
use drk::state::{ApplyError, State, StateUpdate};
use group::{Group, GroupEncoding};

fn me() -> SecretKey {
    SecretKey::new([1u8; 32])
}

fn coin(n: u8) -> Coin {
    let mut repr = [0u8; 32];
    repr[0] = n;
    repr[1] = 0xc0;
    Coin::new(repr)
}

fn nullifier(n: u8) -> Nullifier {
    let mut repr = [0u8; 32];
    repr[0] = n;
    repr[31] = 0x11;
    Nullifier::new(repr)
}

fn sealed(owner: u8, value: u64) -> EncryptedNote {
    let mut ciphertext = vec![owner; 32];
    ciphertext.extend_from_slice(&value.to_le_bytes());
    EncryptedNote { ciphertext, ephem_public: [0u8; 32] }
}

fn open(note: &EncryptedNote, secret: &SecretKey) -> Option<Note> {
    if note.ciphertext.len() == 40 && note.ciphertext[..32] == secret.repr {
        let mut value = [0u8; 8];
        value.copy_from_slice(&note.ciphertext[32..]);
        Some(Note {
            serial: [1u8; 32],
            value: u64::from_le_bytes(value),
            coin_blind: [2u8; 32],
            valcom_blind: [3u8; 32],
        })
    } else {
        None
    }
}

fn pays_me(n: u8, value: u64) -> StateUpdate {
    StateUpdate {
        nullifiers: vec![nullifier(n)],
        coins: vec![coin(n)],
        enc_notes: vec![sealed(1, value)],
    }
}

fn recipient_bytes() -> [u8; 32] {
    (jubjub::SubgroupPoint::generator() * jubjub::Fr::from(5u64)).to_bytes()
}

fn recipient() -> String {
    bs58::encode(recipient_bytes()).into_string()
}

fn transfer(amount: u64) -> TransferParams {
    let mut params = TransferParams::new();
    params.pub_key = recipient();
    params.amount = amount;
    params
}

fn built(action: Action) -> Option<TransferPlan> {
    match action {
        Action::BuildTransfer(plan) => Some(plan),
        _ => None,
    }
}

fn refused(action: Action) -> Option<TransferError> {
    match action {
        Action::RefuseTransfer(e) => Some(e),
        _ => None,
    }
}

fn rejected(action: Action) -> Option<Rejection> {
    match action {
        Action::Reject(r) => Some(r),
        _ => None,
    }
}

#[test]
fn transfer_sees_a_coin_only_after_its_transaction() {
    let wanted = TransferPlan { recipient: PublicKey::new(recipient_bytes()), amount: 100 };

    let mut early: State<u8> = State::new(0, 0, vec![me()], vec![]);
    assert!(matches!(step(&mut early, Event::Transaction(Some(pays_me(1, 40))), &open), Action::Applied));
    let action = step(&mut early, Event::TransferRequested(transfer(100)), &open);
    assert_eq!(refused(action), Some(TransferError::InsufficientFunds));
    assert!(matches!(step(&mut early, Event::Transaction(Some(pays_me(2, 60))), &open), Action::Applied));

    let mut late: State<u8> = State::new(0, 0, vec![me()], vec![]);
    assert!(matches!(step(&mut late, Event::Transaction(Some(pays_me(1, 40))), &open), Action::Applied));
    assert!(matches!(step(&mut late, Event::Transaction(Some(pays_me(2, 60))), &open), Action::Applied));
    let action = step(&mut late, Event::TransferRequested(transfer(100)), &open);
    assert_eq!(built(action), Some(wanted));

    let action = step(&mut early, Event::TransferRequested(transfer(100)), &open);
    assert_eq!(built(action), Some(wanted));
    assert_eq!(early.tree().root(), late.tree().root());
}

#[test]
fn a_rejected_transaction_does_not_stop_the_broker() {
    let mut state: State<u8> = State::new(0, 0, vec![me()], vec![]);
    let action = step(&mut state, Event::Transaction(None), &open);
    assert_eq!(rejected(action), Some(Rejection::Invalid));
    assert_eq!(state.tree().size(), 0);
    assert!(matches!(step(&mut state, Event::Transaction(Some(pays_me(1, 40))), &open), Action::Applied));
    let action = step(&mut state, Event::Transaction(Some(pays_me(1, 40))), &open);
    assert_eq!(rejected(action), Some(Rejection::Refused(ApplyError::DuplicateNullifier(0))));
    assert_eq!(state.tree().size(), 1);
    assert_eq!(balance(state.wallet().own_coins()), 40);
    assert!(matches!(step(&mut state, Event::Transaction(Some(pays_me(2, 2))), &open), Action::Applied));
    assert_eq!(state.tree().size(), 2);
    assert_eq!(balance(state.wallet().own_coins()), 42);
}

#[test]
fn a_full_tree_refuses_the_whole_update() {
    let mut state: State<u8> = State::with_depth(1, 0, 0, vec![me()], vec![]).unwrap();
    assert!(matches!(step(&mut state, Event::Transaction(Some(pays_me(1, 1))), &open), Action::Applied));
    let two = StateUpdate {
        nullifiers: vec![nullifier(2)],
        coins: vec![coin(2), coin(3)],
        enc_notes: vec![sealed(1, 1), sealed(1, 1)],
    };
    let roots = state.root_count();
    let action = step(&mut state, Event::Transaction(Some(two)), &open);
    assert_eq!(rejected(action), Some(Rejection::Refused(ApplyError::TreeFull)));
    assert_eq!(state.tree().size(), 1);
    assert_eq!(state.root_count(), roots);
    assert!(!state.nullifier_exists(&nullifier(2)));
    assert_eq!(state.wallet().own_coins().len(), 1);
    assert_eq!(state.try_apply(pays_me(2, 1), &open), Ok(()));
    assert!(state.tree().is_full());
    assert_eq!(state.try_apply(pays_me(3, 1), &open), Err(ApplyError::TreeFull));
    let only_nullifiers = StateUpdate { nullifiers: vec![nullifier(4)], coins: vec![], enc_notes: vec![] };
    assert_eq!(state.try_apply(only_nullifiers, &open), Ok(()));
    assert!(state.nullifier_exists(&nullifier(4)));
    assert!(State::<u8>::with_depth(64, 0, 0, vec![], vec![]).is_err());
}

#[test]
fn cashier_requests_are_passed_on() {
    let mut state: State<u8> = State::new(0, 0, vec![me()], vec![]);
    let key = PublicKey::new(recipient_bytes());
    match step(&mut state, Event::DepositRequested(key), &open) {
        Action::AskDepositAddress(k) => assert_eq!(k, key),
        _ => panic!("a deposit request asks the cashier"),
    }
    match step(&mut state, Event::WithdrawRequested(String::from("bc1qaddress")), &open) {
        Action::AskWithdrawKey(a) => assert_eq!(a, "bc1qaddress"),
        _ => panic!("a withdraw request asks the cashier"),
    }
    assert_eq!(state.tree().size(), 0);
    assert_eq!(state.root_count(), 1);
}

#[test]
fn transfers_are_planned_within_the_balance() {
    let mut state: State<u8> = State::new(0, 0, vec![me()], vec![]);
    assert_eq!(balance(state.wallet().own_coins()), 0);
    assert_eq!(
        plan_transfer(&state, &transfer(0)),
        Ok(TransferPlan { recipient: PublicKey::new(recipient_bytes()), amount: 0 })
    );
    assert_eq!(plan_transfer(&state, &transfer(1)), Err(TransferError::InsufficientFunds));
    state.apply(pays_me(1, u64::MAX), &open);
    state.apply(pays_me(2, 7), &open);
    state.apply(
        StateUpdate { nullifiers: vec![], coins: vec![coin(3)], enc_notes: vec![sealed(9, 1000)] },
        &open,
    );
    assert_eq!(balance(state.wallet().own_coins()), u64::MAX as u128 + 7);
    assert_eq!(
        plan_transfer(&state, &transfer(u64::MAX)),
        Ok(TransferPlan { recipient: PublicKey::new(recipient_bytes()), amount: u64::MAX })
    );
}

#[test]
fn the_address_is_read_before_the_funds_are_counted() {
    let state: State<u8> = State::new(0, 0, vec![me()], vec![]);
    let mut params = transfer(5);
    params.pub_key = String::from("not base 58!");
    assert_eq!(
        plan_transfer(&state, &params),
        Err(TransferError::InvalidAddress(AddressError::NotBase58))
    );
    params.pub_key = bs58::encode([7u8; 31]).into_string();
    assert_eq!(
        plan_transfer(&state, &params),
        Err(TransferError::InvalidAddress(AddressError::WrongLength))
    );
}

#[test]
fn keys_are_read_from_base_58() {
    let bytes = recipient_bytes();
    assert_eq!(decode_public_key(&recipient()), Ok(PublicKey::new(bytes)));
    assert_ne!(recipient().as_bytes(), &bytes[..]);
    let identity = jubjub::SubgroupPoint::identity().to_bytes();
    assert_eq!(
        decode_public_key(&bs58::encode(identity).into_string()),
        Ok(PublicKey::new(identity))
    );
    let mut one = [0u8; 32];
    one[31] = 1;
    assert_eq!(bs58::encode(one).into_string().len(), 32);
}

#[test]
fn what_is_no_key_is_refused() {
    assert_eq!(decode_public_key("0OIl"), Err(AddressError::NotBase58));
    assert_eq!(decode_public_key("abc def"), Err(AddressError::NotBase58));
    assert_eq!(decode_public_key("grüße"), Err(AddressError::NotBase58));
    assert_eq!(decode_public_key(""), Err(AddressError::WrongLength));
    assert_eq!(decode_public_key("he11owor1d"), Err(AddressError::WrongLength));
    assert_eq!(
        decode_public_key(&bs58::encode([1u8; 33]).into_string()),
        Err(AddressError::WrongLength)
    );
    assert_eq!(
        decode_public_key(&bs58::encode([0xffu8; 32]).into_string()),
        Err(AddressError::NotAPoint)
    );
}

#[test]
fn points_outside_the_subgroup_are_refused() {
    let order_two = jubjub::AffinePoint::from_raw_unchecked(jubjub::Fq::zero(), -jubjub::Fq::one());
    let bytes = order_two.to_bytes();
    assert!(bool::from(jubjub::AffinePoint::from_bytes(bytes).is_some()));
    assert_eq!(public_key_from_bytes(&bytes.to_vec()), Err(AddressError::NotAPoint));
    assert_eq!(
        decode_public_key(&bs58::encode(bytes).into_string()),
        Err(AddressError::NotAPoint)
    );
    assert_eq!(
        public_key_from_bytes(&recipient_bytes().to_vec()),
        Ok(PublicKey::new(recipient_bytes()))
    );
    assert_eq!(public_key_from_bytes(&vec![]), Err(AddressError::WrongLength));
    assert_eq!(public_key_from_bytes(&vec![0u8; 64]), Err(AddressError::WrongLength));
}
