use bls12_381::{Bls12, G1Affine, G2Affine};
use drk::crypto::coin::Coin;
use drk::crypto::keys::{PublicKey, SecretKey};
use drk::crypto::merkle::{CommitmentTree, IncrementalWitness};
use drk::crypto::merkle_node::MerkleNode;
use drk::crypto::note::{EncryptedNote, Note};
use drk::crypto::nullifier::Nullifier;
use drk::state::{ApplyError, State, StateUpdate};
use drk::validation::{check_references, SpendClaim, VerifyFailed};

fn secret(n: u8) -> SecretKey {
    SecretKey::new([n; 32])
}

fn coin(n: u8) -> Coin {
    let mut repr = [0u8; 32];
    repr[0] = n;
    repr[1] = 0xc0;
    Coin::new(repr)
}

fn nullifier(n: u8) -> Nullifier {
    let mut repr = [0u8; 32];
    repr[0] = n;
    repr[31] = 0x11;
    Nullifier::new(repr)
}

/// A note worth `value`, sealed for the owner of `secret(owner)`.
fn sealed(owner: u8, value: u64) -> EncryptedNote {
    let mut ciphertext = vec![owner; 32];
    ciphertext.extend_from_slice(&value.to_le_bytes());
    EncryptedNote { ciphertext, ephem_public: [0u8; 32] }
}

/// The cipher of these tests: a note opens with the secret it names.
fn open(note: &EncryptedNote, secret: &SecretKey) -> Option<Note> {
    if note.ciphertext.len() == 40 && note.ciphertext[..32] == secret.repr {
        let mut value = [0u8; 8];
        value.copy_from_slice(&note.ciphertext[32..]);
        Some(Note {
            serial: [1u8; 32],
            value: u64::from_le_bytes(value),
            coin_blind: [2u8; 32],
            valcom_blind: [3u8; 32],
        })
    } else {
        None
    }
}

fn update(nullifiers: Vec<Nullifier>, coins: Vec<(Coin, EncryptedNote)>) -> StateUpdate {
    let mut update = StateUpdate { nullifiers, coins: Vec::new(), enc_notes: Vec::new() };
    for (coin, note) in coins {
        update.coins.push(coin);
        update.enc_notes.push(note);
    }
    update
}

fn fresh(secrets: Vec<SecretKey>) -> State<u8> {
    State::new(1u8, 2u8, secrets, Vec::new())
}

#[test]
fn new_state_records_the_empty_root() {
    let state = fresh(vec![secret(1)]);
    assert_eq!(state.tree().size(), 0);
    assert_eq!(state.root_count(), 1);
    assert_eq!(state.nullifier_count(), 0);
    assert!(state.is_valid_merkle(&CommitmentTree::empty().root()));
    assert!(!state.is_valid_merkle(&MerkleNode::blank()));
    assert!(state.wallet().own_coins().is_empty());
    assert_eq!(state.wallet().secrets(), &vec![secret(1)]);
}

#[test]
fn one_coin_makes_two_roots() {
    let mut state = fresh(vec![secret(1)]);
    let empty_root = state.tree().root();
    state.apply(update(vec![], vec![(coin(1), sealed(1, 10))]), &open);
    assert_eq!(state.tree().size(), 1);
    assert_eq!(state.root_count(), 2);
    assert_eq!(state.nullifier_count(), 0);
    let root = state.tree().root();
    assert_ne!(root, empty_root);
    assert!(state.is_valid_merkle(&empty_root));
    assert!(state.is_valid_merkle(&root));
    let mut expected = CommitmentTree::empty();
    expected.append(MerkleNode::from_coin(&coin(1))).unwrap();
    assert_eq!(root, expected.root());
    let own = state.wallet().own_coins();
    assert_eq!(own.len(), 1);
    assert_eq!(own[0].coin, coin(1));
    assert_eq!(own[0].note.value, 10);
    assert_eq!(own[0].secret, secret(1));
    assert_eq!(own[0].witness.position(), 0);
    assert_eq!(own[0].witness.root(), root);
    let made_now = IncrementalWitness::from_tree(state.tree()).unwrap();
    assert_eq!(made_now.root(), root);
    assert_eq!(made_now.path(), own[0].witness.path());
}

#[test]
fn second_apply_of_a_nullifier_is_rejected() {
    let mut state = fresh(vec![secret(1)]);
    let x = nullifier(7);
    assert!(!state.nullifier_exists(&x));
    assert_eq!(state.try_apply(update(vec![x], vec![(coin(1), sealed(1, 10))]), &open), Ok(()));
    assert!(state.nullifier_exists(&x));
    assert_eq!(state.tree().size(), 1);
    let root = state.tree().root();
    let roots = state.root_count();
    let again = update(vec![x], vec![(coin(2), sealed(1, 5))]);
    assert_eq!(state.try_apply(again, &open), Err(ApplyError::DuplicateNullifier(0)));
    assert_eq!(state.tree().size(), 1);
    assert_eq!(state.tree().root(), root);
    assert_eq!(state.root_count(), roots);
    assert_eq!(state.nullifier_count(), 1);
    assert_eq!(state.wallet().own_coins().len(), 1);
}

#[test]
fn rejection_names_the_first_spent_nullifier_and_changes_nothing() {
    let mut state = fresh(vec![secret(1)]);
    state.apply(update(vec![nullifier(1), nullifier(2)], vec![]), &open);
    assert_eq!(state.nullifier_count(), 2);
    assert_eq!(state.first_spent(&vec![nullifier(3), nullifier(4)]), None);
    assert_eq!(state.first_spent(&vec![nullifier(3), nullifier(2), nullifier(1)]), Some(1));
    let bad = update(
        vec![nullifier(3), nullifier(2), nullifier(1)],
        vec![(coin(1), sealed(1, 1)), (coin(2), sealed(1, 2))],
    );
    assert_eq!(state.try_apply(bad, &open), Err(ApplyError::DuplicateNullifier(1)));
    assert!(!state.nullifier_exists(&nullifier(3)));
    assert_eq!(state.nullifier_count(), 2);
    assert_eq!(state.tree().size(), 0);
    assert_eq!(state.root_count(), 1);
    assert!(state.wallet().own_coins().is_empty());
}

#[test]
fn apply_itself_checks_nothing() {
    let mut state = fresh(vec![secret(1)]);
    state.apply(update(vec![nullifier(1)], vec![]), &open);
    state.apply(update(vec![nullifier(1)], vec![(coin(1), sealed(2, 1))]), &open);
    assert_eq!(state.nullifier_count(), 1);
    assert_eq!(state.tree().size(), 1);
}

#[test]
fn nullifiers_are_recorded_even_without_coins() {
    let mut state = fresh(vec![]);
    state.apply(update(vec![nullifier(1), nullifier(2), nullifier(1)], vec![]), &open);
    assert_eq!(state.nullifier_count(), 2);
    assert!(state.nullifier_exists(&nullifier(1)));
    assert!(state.nullifier_exists(&nullifier(2)));
    assert!(!state.nullifier_exists(&nullifier(3)));
    assert_eq!(state.root_count(), 1);
}

#[test]
fn root_history_holds_every_root_of_the_tree() {
    let mut state = fresh(vec![secret(1)]);
    let mut shadow = CommitmentTree::empty();
    let mut roots = vec![shadow.root()];
    let mut next = 0u8;
    for batch in [1usize, 3, 0, 2, 5] {
        let mut coins = Vec::new();
        for _ in 0..batch {
            coins.push((coin(next), sealed(9, 0)));
            shadow.append(MerkleNode::from_coin(&coin(next))).unwrap();
            roots.push(shadow.root());
            next += 1;
        }
        let before = state.root_count();
        state.apply(update(vec![], coins), &open);
        assert_eq!(state.root_count(), before + batch);
        assert_eq!(state.root_count(), roots.len());
        for root in &roots {
            assert!(state.is_valid_merkle(root));
        }
        assert_eq!(state.tree().root(), *roots.last().unwrap());
    }
    shadow.append(MerkleNode::from_coin(&coin(next))).unwrap();
    assert!(!state.is_valid_merkle(&shadow.root()));
}

#[test]
fn witnesses_of_owned_coins_follow_every_append() {
    let mut state = fresh(vec![secret(1), secret(2)]);
    state.apply(
        update(
            vec![nullifier(1)],
            vec![
                (coin(0), sealed(9, 1)),
                (coin(1), sealed(1, 20)),
                (coin(2), sealed(9, 3)),
                (coin(3), sealed(2, 40)),
            ],
        ),
        &open,
    );
    state.apply(update(vec![], vec![(coin(4), sealed(1, 50)), (coin(5), sealed(9, 6))]), &open);
    let own = state.wallet().own_coins();
    let positions: Vec<u64> = own.iter().map(|c| c.witness.position()).collect();
    assert_eq!(positions, vec![1, 3, 4]);
    let values: Vec<u64> = own.iter().map(|c| c.note.value).collect();
    assert_eq!(values, vec![20, 40, 50]);
    let secrets: Vec<SecretKey> = own.iter().map(|c| c.secret).collect();
    assert_eq!(secrets, vec![secret(1), secret(2), secret(1)]);
    assert_eq!(state.tree().size(), 6);
    for c in own.iter() {
        assert_eq!(c.witness.tree_size(), 6);
        assert_eq!(c.witness.leaf(), MerkleNode::from_coin(&c.coin));
        assert_eq!(c.witness.root(), state.tree().root());
    }
}

#[test]
fn witness_is_made_before_the_next_coin_of_the_update() {
    let mut state = fresh(vec![secret(1)]);
    state.apply(
        update(vec![], vec![(coin(0), sealed(1, 1)), (coin(1), sealed(9, 1)), (coin(2), sealed(9, 1))]),
        &open,
    );
    let mut tree = CommitmentTree::empty();
    tree.append(MerkleNode::from_coin(&coin(0))).unwrap();
    let mut expected = IncrementalWitness::from_tree(&tree).unwrap();
    expected.append(MerkleNode::from_coin(&coin(1))).unwrap();
    expected.append(MerkleNode::from_coin(&coin(2))).unwrap();
    let own = state.wallet().own_coins();
    assert_eq!(own.len(), 1);
    assert_eq!(own[0].witness.position(), 0);
    assert_eq!(own[0].witness.path(), expected.path());
}

#[test]
fn coins_without_a_note_are_left_out() {
    let mut state = fresh(vec![secret(1)]);
    let mut more_coins = update(vec![], vec![(coin(0), sealed(1, 1))]);
    more_coins.coins.push(coin(1));
    more_coins.coins.push(coin(2));
    state.apply(more_coins, &open);
    assert_eq!(state.tree().size(), 1);
    let mut more_notes = update(vec![], vec![(coin(3), sealed(1, 1))]);
    more_notes.enc_notes.push(sealed(1, 2));
    assert_eq!(state.try_apply(more_notes, &open), Ok(()));
    assert_eq!(state.tree().size(), 2);
    assert_eq!(state.wallet().own_coins().len(), 2);
}

#[test]
fn first_secret_that_opens_wins() {
    let state = State::new(0u8, 0u8, vec![secret(3), secret(1), secret(2), secret(1)], vec![]);
    let tried = std::cell::RefCell::new(Vec::new());
    let cipher = |note: &EncryptedNote, s: &SecretKey| {
        tried.borrow_mut().push(s.repr[0]);
        if s.repr[0] == 1 || s.repr[0] == 2 {
            open(note, &secret(1))
        } else {
            None
        }
    };
    let (note, with) = state.try_decrypt_note(&sealed(1, 77), &cipher).unwrap();
    assert_eq!(note.value, 77);
    assert_eq!(with, secret(1));
    assert_eq!(*tried.borrow(), vec![3, 1]);
    assert!(state.try_decrypt_note(&sealed(8, 77), &open).is_none());
    let nobody = State::new(0u8, 0u8, vec![], vec![]);
    assert!(nobody.try_decrypt_note(&sealed(1, 77), &open).is_none());
}

#[test]
fn decryption_gives_the_same_result_each_time() {
    let state = fresh(vec![secret(4), secret(5)]);
    for note in [sealed(5, 9), sealed(6, 9)] {
        let first = state.try_decrypt_note(&note, &open);
        let second = state.try_decrypt_note(&note, &open);
        match (first, second) {
            (Some((a, s)), Some((b, t))) => {
                assert_eq!(a.value, b.value);
                assert_eq!(a.serial, b.serial);
                assert_eq!(a.coin_blind, b.coin_blind);
                assert_eq!(a.valcom_blind, b.valcom_blind);
                assert_eq!(s, t);
            }
            (None, None) => {}
            _ => panic!("two attempts disagree"),
        }
    }
}

#[test]
fn secrets_added_later_open_later_coins() {
    let mut state = fresh(vec![]);
    state.apply(update(vec![], vec![(coin(0), sealed(1, 5))]), &open);
    assert!(state.wallet().own_coins().is_empty());
    state.add_secret(secret(1));
    assert_eq!(state.tree().size(), 1);
    state.apply(update(vec![], vec![(coin(1), sealed(1, 6))]), &open);
    assert_eq!(state.wallet().own_coins().len(), 1);
    assert_eq!(state.wallet().own_coins()[0].witness.position(), 1);
}

#[test]
fn cashier_keys_are_those_registered() {
    let a = PublicKey::new([1u8; 32]);
    let b = PublicKey::new([2u8; 32]);
    let c = PublicKey::new([3u8; 32]);
    let mut state = State::new(0u8, 0u8, vec![], vec![a]);
    assert!(state.is_valid_cashier_public_key(&a));
    assert!(!state.is_valid_cashier_public_key(&b));
    state.add_cashier_key(b);
    assert!(state.is_valid_cashier_public_key(&a));
    assert!(state.is_valid_cashier_public_key(&b));
    assert!(!state.is_valid_cashier_public_key(&c));
    assert_eq!(state.wallet().cashier_keys(), &vec![a, b]);
    let none: State<u8> = State::new(0, 0, vec![], vec![]);
    assert!(!none.is_valid_cashier_public_key(&a));
}

#[test]
fn verifying_keys_are_handed_back_as_given() {
    let state = fresh(vec![]);
    assert_eq!(*state.mint_pvk(), 1);
    assert_eq!(*state.spend_pvk(), 2);
}

fn verifying_key(inputs: usize) -> groth16::PreparedVerifyingKey<Bls12> {
    let key = groth16::VerifyingKey::<Bls12> {
        alpha_g1: G1Affine::generator(),
        beta_g1: G1Affine::generator(),
        beta_g2: G2Affine::generator(),
        gamma_g2: G2Affine::generator(),
        delta_g1: G1Affine::generator(),
        delta_g2: G2Affine::generator(),
        ic: vec![G1Affine::generator(); inputs + 1],
    };
    groth16::prepare_verifying_key(&key)
}

fn takes_inputs(key: &groth16::PreparedVerifyingKey<Bls12>, inputs: usize) -> bool {
    let proof = groth16::Proof::<Bls12> {
        a: G1Affine::generator(),
        b: G2Affine::generator(),
        c: G1Affine::generator(),
    };
    let inputs = vec![bls12_381::Scalar::from(1u64); inputs];
    !matches!(
        groth16::verify_proof(key, &proof, &inputs),
        Err(bellman::VerificationError::InvalidVerifyingKey)
    )
}

#[test]
fn prepared_keys_stay_apart_and_survive_an_apply() {
    let mut state = State::new(verifying_key(1), verifying_key(3), vec![secret(1)], vec![]);
    assert!(takes_inputs(state.mint_pvk(), 1));
    assert!(!takes_inputs(state.mint_pvk(), 3));
    assert!(takes_inputs(state.spend_pvk(), 3));
    assert!(!takes_inputs(state.spend_pvk(), 1));
    state.apply(update(vec![nullifier(1)], vec![(coin(1), sealed(1, 2))]), &open);
    assert!(takes_inputs(state.mint_pvk(), 1));
    assert!(takes_inputs(state.spend_pvk(), 3));
}

#[test]
fn references_are_held_against_the_state() {
    let cashier = PublicKey::new([1u8; 32]);
    let stranger = PublicKey::new([2u8; 32]);
    let mut state = State::new(0u8, 0u8, vec![secret(1)], vec![cashier]);
    let first_root = state.tree().root();
    state.apply(update(vec![nullifier(1)], vec![(coin(1), sealed(1, 1))]), &open);
    let root = state.tree().root();
    let unknown = MerkleNode::new([9u8; 32]);
    let claim = |merkle_root: MerkleNode, n: u8| SpendClaim { merkle_root, nullifier: nullifier(n) };

    assert_eq!(check_references(&state, &vec![], &vec![]), Ok(()));
    assert_eq!(
        check_references(&state, &vec![cashier, cashier], &vec![claim(root, 2), claim(first_root, 3)]),
        Ok(())
    );
    assert_eq!(
        check_references(&state, &vec![cashier, stranger, stranger], &vec![claim(unknown, 1)]),
        Err(VerifyFailed::InvalidCashierKey(1))
    );
    assert_eq!(
        check_references(&state, &vec![cashier], &vec![claim(root, 2), claim(unknown, 1), claim(root, 1)]),
        Err(VerifyFailed::InvalidMerkle(1))
    );
    assert_eq!(
        check_references(&state, &vec![], &vec![claim(root, 2), claim(root, 1), claim(unknown, 3)]),
        Err(VerifyFailed::DuplicateNullifier(1))
    );
    assert_eq!(
        check_references(&state, &vec![], &vec![claim(first_root, 1)]),
        Err(VerifyFailed::DuplicateNullifier(0))
    );
}
