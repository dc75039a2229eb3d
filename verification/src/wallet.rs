//! The wallet as the state engine sees it: the secrets to try on incoming notes,
//! the keys of the registered cashiers, and the coins found to be the wallet's
//! own, each with its witness.

use crate::crypto::coin::Coin;
use crate::crypto::keys::{PublicKey, SecretKey};
use crate::crypto::merkle::IncrementalWitness;
use crate::crypto::merkle_node::MerkleNode;
use crate::crypto::note::{is_trial_outcome, trial_decrypt, EncryptedNote, Note};
use vstd::arithmetic::power2::pow2;
use vstd::prelude::*;

verus! {

/// A coin that the wallet can spend: the coin, the note that came with it, the
/// secret that opened the note, and the witness of the coin in the tree.
pub struct OwnCoin {
    pub coin: Coin,
    pub note: Note,
    pub secret: SecretKey,
    pub witness: IncrementalWitness,
}

/// What the contracts say of an owned coin: all of it but the witness, of which
/// only the position of the coin in the tree is kept.
pub struct Owned {
    pub coin: Coin,
    pub note: Note,
    pub secret: SecretKey,
    pub position: nat,
}

impl View for OwnCoin {
    type V = Owned;

    open spec fn view(&self) -> Owned {
        Owned {
            coin: self.coin,
            note: self.note,
            secret: self.secret,
            position: self.witness.leaf_position(),
        }
    }
}

/// The views of the owned coins in `coins`, in order.
pub open spec fn owned_view(coins: Seq<OwnCoin>) -> Seq<Owned> {
    Seq::new(coins.len(), |i: int| coins[i]@)
}

/// Whether the witness of `own` is sound and has seen exactly `leaves`, in a tree
/// of height `height`, and stands for the coin of `own`.
pub open spec fn follows(own: OwnCoin, leaves: Seq<Seq<u8>>, height: nat) -> bool {
    &&& own.witness.wf()
    &&& own.witness.leaves() == leaves
    &&& own.witness.height() == height
    &&& leaves[own.witness.leaf_position() as int] == own.coin@
}

/// Whether one of `keys` has the encoding `key`.
pub open spec fn holds_key(keys: Seq<PublicKey>, key: Seq<u8>) -> bool {
    exists|i: int| 0 <= i < keys.len() && #[trigger] keys[i]@ == key
}

/// The wallet's part of the ledger state.
pub struct Wallet {
    secrets: Vec<SecretKey>,
    cashier_keys: Vec<PublicKey>,
    own_coins: Vec<OwnCoin>,
}

impl Wallet {
    /// The secrets of the wallet, in the order in which they are tried.
    pub closed spec fn secret_keys(&self) -> Seq<SecretKey> {
        self.secrets@
    }

    /// The keys of the registered cashiers.
    pub closed spec fn cashiers(&self) -> Seq<PublicKey> {
        self.cashier_keys@
    }

    /// The coins found to be the wallet's own, oldest first.
    pub closed spec fn coins(&self) -> Seq<OwnCoin> {
        self.own_coins@
    }

    /// Whether every witness of the wallet has seen exactly `leaves`, in a tree of
    /// height `height`, and stands for its coin.
    pub open spec fn follows_tree(&self, leaves: Seq<Seq<u8>>, height: nat) -> bool {
        forall|i: int| 0 <= i < self.coins().len() ==> follows(#[trigger] self.coins()[i], leaves, height)
    }

    /// A wallet with the given secrets and cashiers, and no coin of its own yet.
    pub fn new(secrets: Vec<SecretKey>, cashier_keys: Vec<PublicKey>) -> (r: Self)
        ensures
            r.secret_keys() == secrets@,
            r.cashiers() == cashier_keys@,
            r.coins() == Seq::<OwnCoin>::empty(),
    {
        Wallet { secrets, cashier_keys, own_coins: Vec::new() }
    }

    /// Adds a secret, to be tried after those that the wallet already has.
    pub fn add_secret(&mut self, secret: SecretKey)
        ensures
            final(self).secret_keys() == old(self).secret_keys().push(secret),
            final(self).cashiers() == old(self).cashiers(),
            final(self).coins() == old(self).coins(),
    {
        self.secrets.push(secret);
    }

    /// Registers the key of a cashier.
    pub fn add_cashier_key(&mut self, key: PublicKey)
        ensures
            final(self).cashiers() == old(self).cashiers().push(key),
            final(self).secret_keys() == old(self).secret_keys(),
            final(self).coins() == old(self).coins(),
    {
        self.cashier_keys.push(key);
    }

    /// The secrets of the wallet, in the order in which they are tried.
    pub fn secrets(&self) -> (r: &Vec<SecretKey>)
        ensures
            r@ == self.secret_keys(),
    {
        &self.secrets
    }

    /// The keys of the registered cashiers.
    pub fn cashier_keys(&self) -> (r: &Vec<PublicKey>)
        ensures
            r@ == self.cashiers(),
    {
        &self.cashier_keys
    }

    /// The coins found to be the wallet's own, oldest first.
    pub fn own_coins(&self) -> (r: &Vec<OwnCoin>)
        ensures
            r@ == self.coins(),
    {
        &self.own_coins
    }

    /// Whether `key` is the key of a registered cashier.
    pub fn is_cashier_key(&self, key: &PublicKey) -> (r: bool)
        ensures
            r == holds_key(self.cashiers(), key@),
    {
        let mut i: usize = 0;
        while i < self.cashier_keys.len()
            invariant
                forall|j: int| 0 <= j < i ==> #[trigger] self.cashier_keys@[j]@ != key@,
            decreases self.cashier_keys.len() - i,
        {
            if self.cashier_keys[i] == *key {
                assert(self.cashiers()[i as int]@ == key@);
                return true;
            }
            i = i + 1;
        }
        false
    }

    /// Tries the wallet's secrets on `ciphertext`, in their order, and gives the
    /// note and the secret of the first that opens it.
    pub fn try_decrypt_note<F: Fn(&EncryptedNote, &SecretKey) -> Option<Note>>(
        &self,
        ciphertext: &EncryptedNote,
        decrypt: &F,
    ) -> (r: Option<(Note, SecretKey)>)
        requires
            forall|c: &EncryptedNote, s: &SecretKey| decrypt.requires((c, s)),
        ensures
            is_trial_outcome(decrypt, self.secret_keys(), ciphertext, r),
    {
        trial_decrypt(&self.secrets, ciphertext, decrypt)
    }

    /// Gives `node`, the leaf that the tree was just given, to every witness.
    pub(crate) fn advance_witnesses(&mut self, node: MerkleNode, Ghost(leaves): Ghost<Seq<Seq<u8>>>, Ghost(height): Ghost<nat>)
        requires
            old(self).follows_tree(leaves, height),
            leaves.len() < pow2(height),
        ensures
            final(self).follows_tree(leaves.push(node@), height),
            final(self).secret_keys() == old(self).secret_keys(),
            final(self).cashiers() == old(self).cashiers(),
            owned_view(final(self).coins()) == owned_view(old(self).coins()),
    {
        let ghost before = self.own_coins@;
        let mut i: usize = 0;
        assert forall|j: int| 0 <= j < before.len() implies follows(
            #[trigger] self.own_coins@[j],
            leaves,
            height,
        ) by {
            assert(follows(self.coins()[j], leaves, height));
        }
        while i < self.own_coins.len()
            invariant
                self.own_coins.len() == before.len(),
                self.secrets == old(self).secrets,
                self.cashier_keys == old(self).cashier_keys,
                leaves.len() < pow2(height),
                forall|j: int| 0 <= j < i ==> follows(#[trigger] self.own_coins@[j], leaves.push(node@), height),
                forall|j: int| i <= j < before.len() ==> follows(#[trigger] self.own_coins@[j], leaves, height),
                forall|j: int| 0 <= j < before.len() ==> (#[trigger] self.own_coins@[j])@ == before[j]@,
            decreases self.own_coins.len() - i,
        {
            let ghost prior = self.own_coins@;
            proof {
                prior[i as int].witness.lemma_bounds();
            }
            let advanced = self.own_coins[i].witness.append(node);
            assert(advanced is Ok);
            assert forall|j: int| 0 <= j < prior.len() && j != i implies self.own_coins@[j]
                == prior[j] by {}
            assert(follows(self.own_coins@[i as int], leaves.push(node@), height));
            i = i + 1;
        }
        assert forall|j: int| 0 <= j < self.coins().len() implies follows(
            #[trigger] self.coins()[j],
            leaves.push(node@),
            height,
        ) by {
            assert(follows(self.own_coins@[j], leaves.push(node@), height));
        }
    }

    /// Adds a coin to the wallet's own.
    pub(crate) fn put_own_coin(&mut self, coin: Coin, note: Note, secret: SecretKey, witness: IncrementalWitness)
        ensures
            final(self).coins() == old(self).coins().push(OwnCoin { coin, note, secret, witness }),
            final(self).secret_keys() == old(self).secret_keys(),
            final(self).cashiers() == old(self).cashiers(),
    {
        self.own_coins.push(OwnCoin { coin, note, secret, witness });
    }
}

} // verus!
