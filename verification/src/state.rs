//! The program state: the commitment tree, the history of its roots, the set of
//! nullifiers and the wallet, and the one way in which they change together.

use crate::crypto::coin::Coin;
use crate::crypto::keys::{PublicKey, SecretKey};
use crate::crypto::merkle::{CommitmentTree, IncrementalWitness, TreeError, TREE_DEPTH};
use crate::crypto::merkle_node::{MerkleNode, MAX_LEVELS};
use crate::crypto::merkle_spec::{auth_path, lemma_auth_path_leads_to_root, root_from_path, tree_root};
use crate::crypto::note::{is_trial_outcome, EncryptedNote, Note};
use crate::crypto::nullifier::Nullifier;
use crate::store::DigestSet;
use crate::wallet::{follows, holds_key, owned_view, OwnCoin, Owned, Wallet};
use vstd::arithmetic::power2::pow2;
use vstd::prelude::*;

verus! {

/// What the validation of one transaction leaves to be applied: the nullifiers of
/// the coins it spends, the coins it makes, and the encrypted note of each new coin.
#[derive(Debug)]
pub struct StateUpdate {
    pub nullifiers: Vec<Nullifier>,
    pub coins: Vec<Coin>,
    pub enc_notes: Vec<EncryptedNote>,
}

impl StateUpdate {
    /// The number of new coins that come with a note: coins and notes are taken in
    /// pairs, and what is left over of the longer list is not applied.
    pub open spec fn pairs(&self) -> nat {
        if self.coins.len() <= self.enc_notes.len() {
            self.coins.len() as nat
        } else {
            self.enc_notes.len() as nat
        }
    }
}

/// The ledger as the contracts see it.
pub struct Ledger {
    /// The leaves of the commitment tree, in the order of their appending.
    pub leaves: Seq<Seq<u8>>,
    /// The roots that the tree has had.
    pub roots: Set<Seq<u8>>,
    /// The nullifiers of the coins spent so far.
    pub nullifiers: Set<Seq<u8>>,
    /// The coins of the wallet, oldest first.
    pub owned: Seq<Owned>,
}

/// The bytes of each coin of `coins`, in order.
pub open spec fn coins_view(coins: Seq<Coin>) -> Seq<Seq<u8>> {
    Seq::new(coins.len(), |i: int| coins[i]@)
}

/// The set of the bytes of `nullifiers`.
pub open spec fn nullifier_set(nullifiers: Seq<Nullifier>) -> Set<Seq<u8>> {
    Set::new(|x: Seq<u8>| exists|i: int| 0 <= i < nullifiers.len() && #[trigger] nullifiers[i]@ == x)
}

/// The roots that a tree of height `height` has had while it grew to `leaves`: that
/// of the empty tree, and that of the tree after each append.
pub open spec fn roots_of(leaves: Seq<Seq<u8>>, height: nat) -> Set<Seq<u8>> {
    Set::new(
        |r: Seq<u8>|
            exists|n: int| 0 <= n <= leaves.len() && r == #[trigger] tree_root(leaves.take(n), height),
    )
}

/// Whether the coin `owned` stands in `leaves` at its position, and its
/// authentication path in the tree of height `height` over `leaves` leads from the
/// coin to the root of that tree.
pub open spec fn proves_inclusion(owned: Owned, leaves: Seq<Seq<u8>>, height: nat) -> bool {
    &&& owned.position < leaves.len()
    &&& leaves[owned.position as int] == owned.coin@
    &&& root_from_path(owned.coin@, owned.position, auth_path(leaves, height, owned.position))
        == tree_root(leaves, height)
}

/// The ledger before anything was applied: a tree of height `height` without
/// leaves, whose root is the one root recorded, no nullifier and no coin owned.
pub open spec fn at_start(height: nat) -> Ledger {
    Ledger {
        leaves: Seq::empty(),
        roots: Set::<Seq<u8>>::empty().insert(tree_root(Seq::empty(), height)),
        nullifiers: Set::empty(),
        owned: Seq::empty(),
    }
}

/// The ledger once `nullifiers` are recorded as spent.
pub open spec fn with_nullifiers(ledger: Ledger, nullifiers: Seq<Nullifier>) -> Ledger {
    Ledger { nullifiers: ledger.nullifiers.union(nullifier_set(nullifiers)), ..ledger }
}

/// The ledger once `coin` is appended to the tree: the new root is recorded, and
/// where the trial decryption of the coin's note gave a note and a secret, the
/// coin is the wallet's, at the position that it took in the tree.
pub open spec fn with_coin(
    ledger: Ledger,
    height: nat,
    coin: Coin,
    outcome: Option<(Note, SecretKey)>,
) -> Ledger {
    let leaves = ledger.leaves.push(coin@);
    Ledger {
        leaves,
        roots: ledger.roots.insert(tree_root(leaves, height)),
        nullifiers: ledger.nullifiers,
        owned: match outcome {
            Some((note, secret)) => ledger.owned.push(
                Owned { coin, note, secret, position: ledger.leaves.len() },
            ),
            None => ledger.owned,
        },
    }
}

/// The ledger once `coins` are appended in their order, `outcomes` holding for
/// each coin what the trial decryption of its note gave.
pub open spec fn with_coins(
    ledger: Ledger,
    height: nat,
    coins: Seq<Coin>,
    outcomes: Seq<Option<(Note, SecretKey)>>,
) -> Ledger
    decreases coins.len(),
{
    if coins.len() == 0 {
        ledger
    } else {
        with_coin(
            with_coins(ledger, height, coins.drop_last(), outcomes.drop_last()),
            height,
            coins.last(),
            outcomes.last(),
        )
    }
}

/// The ledger once `update` is applied: first its nullifiers, then its coins.
pub open spec fn applied(
    ledger: Ledger,
    height: nat,
    update: StateUpdate,
    outcomes: Seq<Option<(Note, SecretKey)>>,
) -> Ledger {
    with_coins(
        with_nullifiers(ledger, update.nullifiers@),
        height,
        update.coins@.take(update.pairs() as int),
        outcomes,
    )
}

/// Whether `outcomes` holds, for each pair of `update`, what the trial decryption
/// of the pair's note may give with `secrets` and the cipher `decrypt`.
pub open spec fn are_trial_outcomes<F: Fn(&EncryptedNote, &SecretKey) -> Option<Note>>(
    decrypt: &F,
    secrets: Seq<SecretKey>,
    update: StateUpdate,
    outcomes: Seq<Option<(Note, SecretKey)>>,
) -> bool {
    &&& outcomes.len() == update.pairs()
    &&& forall|i: int|
        0 <= i < outcomes.len() ==> is_trial_outcome(
            decrypt,
            secrets,
            &update.enc_notes[i],
            #[trigger] outcomes[i],
        )
}

/// Whether applying `update` to `before` may leave `after`, the trial decryptions
/// having gone as `outcomes` says.
pub open spec fn is_applied<F: Fn(&EncryptedNote, &SecretKey) -> Option<Note>>(
    decrypt: &F,
    secrets: Seq<SecretKey>,
    height: nat,
    before: Ledger,
    update: StateUpdate,
    outcomes: Seq<Option<(Note, SecretKey)>>,
    after: Ledger,
) -> bool {
    &&& are_trial_outcomes(decrypt, secrets, update, outcomes)
    &&& after == applied(before, height, update, outcomes)
}

/// Why an update was not applied.
#[derive(Debug, Clone, Copy, PartialEq, Eq, Structural)]
pub enum ApplyError {
    /// The nullifier at this place of the update is already in the set of
    /// nullifiers: its coin was spent before.
    DuplicateNullifier(usize),
    /// The tree has no room for the coins of the update.
    TreeFull,
}

/// Whether none of the first `n` of `nullifiers` is in `spent`.
pub open spec fn none_spent(nullifiers: Seq<Nullifier>, spent: Set<Seq<u8>>, n: int) -> bool {
    forall|j: int| 0 <= j < n ==> !spent.contains(#[trigger] nullifiers[j]@)
}

/// Whether a tree of height `height` that holds `leaves` has room for the coins
/// of `update`.
pub open spec fn has_room(leaves: Seq<Seq<u8>>, height: nat, update: StateUpdate) -> bool {
    leaves.len() + update.pairs() <= pow2(height)
}

/// The state of the ledger at one client, with the verifying keys of the two
/// proofs, which it holds for the validation of transactions and never reads.
pub struct State<K> {
    tree: CommitmentTree,
    merkle_roots: DigestSet,
    nullifiers: DigestSet,
    mint_pvk: K,
    spend_pvk: K,
    wallet: Wallet,
}

impl<K> View for State<K> {
    type V = Ledger;

    closed spec fn view(&self) -> Ledger {
        Ledger {
            leaves: self.tree@,
            roots: self.merkle_roots@,
            nullifiers: self.nullifiers@,
            owned: owned_view(self.wallet.coins()),
        }
    }
}

impl<K> State<K> {
    /// The height of the commitment tree.
    pub closed spec fn height(&self) -> nat {
        self.tree.height()
    }

    /// The secrets of the wallet, in the order in which they are tried.
    pub closed spec fn secret_keys(&self) -> Seq<SecretKey> {
        self.wallet.secret_keys()
    }

    /// The keys of the registered cashiers.
    pub closed spec fn cashiers(&self) -> Seq<PublicKey> {
        self.wallet.cashiers()
    }

    /// The coins of the wallet with their witnesses, oldest first.
    pub closed spec fn own_coins(&self) -> Seq<OwnCoin> {
        self.wallet.coins()
    }

    /// The verifying key of the mint proof.
    pub closed spec fn mint_key(&self) -> K {
        self.mint_pvk
    }

    /// The verifying key of the spend proof.
    pub closed spec fn spend_key(&self) -> K {
        self.spend_pvk
    }

    /// What holds of every state that this module hands out: the root history is
    /// exactly the roots that the tree has had, and every witness of the wallet has
    /// seen every leaf of the tree.
    pub closed spec fn wf(&self) -> bool {
        &&& self.tree.wf()
        &&& self.merkle_roots.wf()
        &&& self.nullifiers.wf()
        &&& self.merkle_roots@ == roots_of(self.tree@, self.tree.height())
        &&& self.wallet.follows_tree(self.tree@, self.tree.height())
    }

    /// The state at the start: an empty tree of the ledger's height, whose root is the
    /// one entry of the root history, no nullifier, and a wallet without coins.
    pub fn new(mint_pvk: K, spend_pvk: K, secrets: Vec<SecretKey>, cashier_keys: Vec<PublicKey>) -> (r:
        Self)
        ensures
            r.wf(),
            r.height() == TREE_DEPTH,
            r@ == at_start(r.height()),
            r.secret_keys() == secrets@,
            r.cashiers() == cashier_keys@,
            r.mint_key() == mint_pvk,
            r.spend_key() == spend_pvk,
    {
        Self::over(CommitmentTree::empty(), mint_pvk, spend_pvk, secrets, cashier_keys)
    }

    /// The state at the start with a tree of height `depth`, if the hash has that
    /// many levels.
    pub fn with_depth(
        depth: usize,
        mint_pvk: K,
        spend_pvk: K,
        secrets: Vec<SecretKey>,
        cashier_keys: Vec<PublicKey>,
    ) -> (r: Result<Self, TreeError>)
        ensures
            match r {
                Ok(state) => {
                    &&& depth <= MAX_LEVELS
                    &&& state.wf()
                    &&& state.height() == depth
                    &&& state@ == at_start(state.height())
                    &&& state.secret_keys() == secrets@
                    &&& state.cashiers() == cashier_keys@
                    &&& state.mint_key() == mint_pvk
                    &&& state.spend_key() == spend_pvk
                },
                Err(e) => depth > MAX_LEVELS && e == TreeError::TooDeep,
            },
    {
        match CommitmentTree::with_depth(depth) {
            Ok(tree) => Ok(Self::over(tree, mint_pvk, spend_pvk, secrets, cashier_keys)),
            Err(e) => Err(e),
        }
    }

    /// The state at the start over the empty tree `tree`.
    fn over(
        tree: CommitmentTree,
        mint_pvk: K,
        spend_pvk: K,
        secrets: Vec<SecretKey>,
        cashier_keys: Vec<PublicKey>,
    ) -> (r: Self)
        requires
            tree.wf(),
            tree@ == Seq::<Seq<u8>>::empty(),
        ensures
            r.wf(),
            r.height() == tree.height(),
            r@ == at_start(r.height()),
            r.secret_keys() == secrets@,
            r.cashiers() == cashier_keys@,
            r.mint_key() == mint_pvk,
            r.spend_key() == spend_pvk,
    {
        let mut merkle_roots = DigestSet::new();
        let root = tree.root();
        merkle_roots.insert(root.repr);
        let state = State {
            tree,
            merkle_roots,
            nullifiers: DigestSet::new(),
            mint_pvk,
            spend_pvk,
            wallet: Wallet::new(secrets, cashier_keys),
        };
        proof {
            let leaves = state.tree@;
            let height = state.tree.height();
            assert(leaves.take(0) =~= leaves);
            assert(roots_of(leaves, height) =~= Set::<Seq<u8>>::empty().insert(
                tree_root(leaves, height),
            ));
            assert(state@.owned =~= Seq::<Owned>::empty());
        }
        state
    }

    /// Whether `public` is the key of a registered cashier.
    pub fn is_valid_cashier_public_key(&self, public: &PublicKey) -> (r: bool)
        ensures
            r == holds_key(self.cashiers(), public@),
    {
        self.wallet.is_cashier_key(public)
    }

    /// Whether the tree has had the root `merkle_root`, now or at any time before.
    pub fn is_valid_merkle(&self, merkle_root: &MerkleNode) -> (r: bool)
        requires
            self.wf(),
        ensures
            r == self@.roots.contains(merkle_root@),
    {
        self.merkle_roots.contains(&merkle_root.repr)
    }

    /// Whether `nullifier` is in the set of nullifiers: whether its coin was spent.
    pub fn nullifier_exists(&self, nullifier: &Nullifier) -> (r: bool)
        requires
            self.wf(),
        ensures
            r == self@.nullifiers.contains(nullifier@),
    {
        self.nullifiers.contains(&nullifier.repr)
    }

    /// The verifying key of the mint proof.
    pub fn mint_pvk(&self) -> (r: &K)
        ensures
            *r == self.mint_key(),
    {
        &self.mint_pvk
    }

    /// The verifying key of the spend proof.
    pub fn spend_pvk(&self) -> (r: &K)
        ensures
            *r == self.spend_key(),
    {
        &self.spend_pvk
    }

    /// The commitment tree.
    pub fn tree(&self) -> (r: &CommitmentTree)
        ensures
            r@ == self@.leaves,
            r.height() == self.height(),
            self.wf() ==> r.wf(),
    {
        &self.tree
    }

    /// The wallet.
    pub fn wallet(&self) -> (r: &Wallet)
        ensures
            r.coins() == self.own_coins(),
            r.secret_keys() == self.secret_keys(),
            r.cashiers() == self.cashiers(),
    {
        &self.wallet
    }

    /// The number of roots in the root history.
    pub fn root_count(&self) -> (r: usize)
        requires
            self.wf(),
        ensures
            r == self@.roots.len(),
    {
        self.merkle_roots.len()
    }

    /// The number of nullifiers in the set of nullifiers.
    pub fn nullifier_count(&self) -> (r: usize)
        requires
            self.wf(),
        ensures
            r == self@.nullifiers.len(),
    {
        self.nullifiers.len()
    }

    /// Adds a secret to the wallet, to be tried after those that it already has.
    pub fn add_secret(&mut self, secret: SecretKey)
        requires
            old(self).wf(),
        ensures
            final(self).wf(),
            final(self)@ == old(self)@,
            final(self).height() == old(self).height(),
            final(self).secret_keys() == old(self).secret_keys().push(secret),
            final(self).cashiers() == old(self).cashiers(),
            final(self).own_coins() == old(self).own_coins(),
            final(self).mint_key() == old(self).mint_key(),
            final(self).spend_key() == old(self).spend_key(),
    {
        self.wallet.add_secret(secret);
    }

    /// Registers the key of a cashier with the wallet.
    pub fn add_cashier_key(&mut self, key: PublicKey)
        requires
            old(self).wf(),
        ensures
            final(self).wf(),
            final(self)@ == old(self)@,
            final(self).height() == old(self).height(),
            final(self).secret_keys() == old(self).secret_keys(),
            final(self).cashiers() == old(self).cashiers().push(key),
            final(self).own_coins() == old(self).own_coins(),
            final(self).mint_key() == old(self).mint_key(),
            final(self).spend_key() == old(self).spend_key(),
    {
        self.wallet.add_cashier_key(key);
    }

    /// Whether the witness of every coin of the wallet has seen the leaves of the
    /// tree, all of them and no others, and stands for its coin: whether every
    /// witness is as far as the tree.
    pub open spec fn witnesses_follow_tree(&self) -> bool {
        forall|i: int|
            0 <= i < self.own_coins().len() ==> follows(
                #[trigger] self.own_coins()[i],
                self@.leaves,
                self.height(),
            )
    }

    /// Whether this state has the height, the secrets, the cashiers and the
    /// verifying keys of `other`.
    pub open spec fn keeps_setting(&self, other: &Self) -> bool {
        &&& self.height() == other.height()
        &&& self.secret_keys() == other.secret_keys()
        &&& self.cashiers() == other.cashiers()
        &&& self.mint_key() == other.mint_key()
        &&& self.spend_key() == other.spend_key()
    }

    /// Tries the wallet's secrets on `ciphertext`, in their order, and gives the note
    /// and the secret of the first that opens it, or nothing if none does.
    pub fn try_decrypt_note<F: Fn(&EncryptedNote, &SecretKey) -> Option<Note>>(
        &self,
        ciphertext: &EncryptedNote,
        decrypt: &F,
    ) -> (r: Option<(Note, SecretKey)>)
        requires
            forall|c: &EncryptedNote, s: &SecretKey| decrypt.requires((c, s)),
        ensures
            is_trial_outcome(decrypt, self.secret_keys(), ciphertext, r),
    {
        self.wallet.try_decrypt_note(ciphertext, decrypt)
    }

    /// The place of the first of `nullifiers` that is already in the set of
    /// nullifiers, if one of them is.
    pub fn first_spent(&self, nullifiers: &Vec<Nullifier>) -> (r: Option<usize>)
        requires
            self.wf(),
        ensures
            match r {
                Some(i) => {
                    &&& i < nullifiers.len()
                    &&& self@.nullifiers.contains(nullifiers[i as int]@)
                    &&& none_spent(nullifiers@, self@.nullifiers, i as int)
                },
                None => none_spent(nullifiers@, self@.nullifiers, nullifiers.len() as int),
            },
    {
        let mut i: usize = 0;
        while i < nullifiers.len()
            invariant
                self.wf(),
                none_spent(nullifiers@, self@.nullifiers, i as int),
            decreases nullifiers.len() - i,
        {
            if self.nullifiers.contains(&nullifiers[i].repr) {
                return Some(i);
            }
            i = i + 1;
        }
        None
    }

    /// Puts every one of `nullifiers` into the set of nullifiers.
    fn record_nullifiers(&mut self, nullifiers: &Vec<Nullifier>)
        requires
            old(self).wf(),
        ensures
            final(self).wf(),
            final(self).keeps_setting(old(self)),
            final(self).own_coins() == old(self).own_coins(),
            final(self)@ == with_nullifiers(old(self)@, nullifiers@),
    {
        let ghost before = self.nullifiers@;
        let mut i: usize = 0;
        while i < nullifiers.len()
            invariant
                i <= nullifiers.len(),
                self.wf(),
                self.keeps_setting(old(self)),
                self.wallet == old(self).wallet,
                self.tree == old(self).tree,
                self.nullifiers@ == before.union(nullifier_set(nullifiers@.take(i as int))),
            decreases nullifiers.len() - i,
        {
            self.nullifiers.insert(nullifiers[i].repr);
            proof {
                let seen = nullifiers@.take(i as int);
                let next = nullifiers@.take(i + 1);
                assert forall|x: Seq<u8>| nullifier_set(next).contains(x) <==> nullifier_set(
                    seen,
                ).insert(nullifiers[i as int]@).contains(x) by {
                    if nullifier_set(next).contains(x) {
                        let j = choose|j: int| 0 <= j < next.len() && #[trigger] next[j]@ == x;
                        if j < i {
                            assert(seen[j]@ == x);
                        }
                    }
                    if nullifier_set(seen).contains(x) {
                        let j = choose|j: int| 0 <= j < seen.len() && #[trigger] seen[j]@ == x;
                        assert(next[j]@ == x);
                    }
                    if x == nullifiers[i as int]@ {
                        assert(next[i as int]@ == x);
                    }
                }
            }
            i = i + 1;
        }
        assert(nullifiers@.take(i as int) =~= nullifiers@);
    }

    /// Applies an update that the validation of a transaction has left: records its
    /// nullifiers, then, for each new coin in turn, appends the coin to the tree,
    /// records the new root, gives the coin to every witness of the wallet and
    /// tries the wallet's secrets on the coin's note; a coin whose note opens is
    /// the wallet's from then on, with a witness made at that point.
    ///
    /// Nothing of the update is checked again here. The tree must have room for
    /// the coins.
    pub fn apply<F: Fn(&EncryptedNote, &SecretKey) -> Option<Note>>(
        &mut self,
        update: StateUpdate,
        decrypt: &F,
    )
        requires
            old(self).wf(),
            forall|c: &EncryptedNote, s: &SecretKey| decrypt.requires((c, s)),
            has_room(old(self)@.leaves, old(self).height(), update),
        ensures
            final(self).wf(),
            final(self).keeps_setting(old(self)),
            final(self).witnesses_follow_tree(),
            exists|outcomes: Seq<Option<(Note, SecretKey)>>| #[trigger]
                is_applied(
                    decrypt,
                    old(self).secret_keys(),
                    old(self).height(),
                    old(self)@,
                    update,
                    outcomes,
                    final(self)@,
                ),
    {
        self.record_nullifiers(&update.nullifiers);
        let ghost base = self@;
        let ghost height = self.height();
        let ghost secrets = self.secret_keys();
        let ghost mut outcomes: Seq<Option<(Note, SecretKey)>> = Seq::empty();
        let pairs: usize = if update.coins.len() <= update.enc_notes.len() {
            update.coins.len()
        } else {
            update.enc_notes.len()
        };
        let mut i: usize = 0;
        while i < pairs
            invariant
                i <= pairs,
                pairs == update.pairs(),
                self.wf(),
                self.keeps_setting(old(self)),
                height == self.height(),
                secrets == self.secret_keys(),
                forall|c: &EncryptedNote, s: &SecretKey| decrypt.requires((c, s)),
                outcomes.len() == i,
                forall|j: int|
                    0 <= j < i ==> is_trial_outcome(
                        decrypt,
                        secrets,
                        &update.enc_notes[j],
                        #[trigger] outcomes[j],
                    ),
                self@ == with_coins(base, height, update.coins@.take(i as int), outcomes),
                self@.leaves.len() == base.leaves.len() + i,
                base.leaves.len() + pairs <= pow2(height),
            decreases pairs - i,
        {
            let ghost prev = self@;
            let ghost prev_outcomes = outcomes;
            let coin = update.coins[i];
            let node = MerkleNode::from_coin(&coin);
            let appended = self.tree.append(node);
            assert(appended is Ok);
            let root = self.tree.root();
            self.merkle_roots.insert(root.repr);
            self.wallet.advance_witnesses(node, Ghost(prev.leaves), Ghost(height));
            let outcome = self.try_decrypt_note(&update.enc_notes[i], decrypt);
            proof {
                lemma_roots_of_push(prev.leaves, coin@, height);
                outcomes = outcomes.push(outcome);
            }
            match outcome {
                Some((note, secret)) => {
                    let ghost had = self.wallet.coins();
                    match IncrementalWitness::from_tree(&self.tree) {
                        Some(witness) => {
                            self.wallet.put_own_coin(coin, note, secret, witness);
                            assert forall|j: int| 0 <= j < self.wallet.coins().len() implies follows(
                                #[trigger] self.wallet.coins()[j],
                                self.tree@,
                                height,
                            ) by {
                                if j < had.len() {
                                    assert(follows(had[j], self.tree@, height));
                                }
                            }
                        },
                        None => {},
                    }
                },
                None => {},
            }
            i = i + 1;
            proof {
                let coins = update.coins@.take(i as int);
                assert(coins.drop_last() =~= update.coins@.take(i - 1));
                assert(outcomes.drop_last() =~= prev_outcomes);
                assert(self@.owned =~= with_coin(prev, height, coin, outcome).owned);
            }
        }
        assert(is_applied(decrypt, old(self).secret_keys(), old(self).height(), old(self)@, update, outcomes, self@));
    }

    /// Applies `update` if none of its nullifiers is in the set of nullifiers yet and
    /// the tree has room for its coins, and refuses it otherwise: a refused update
    /// leaves the state as it was, tree, root history, nullifiers and wallet.
    pub fn try_apply<F: Fn(&EncryptedNote, &SecretKey) -> Option<Note>>(
        &mut self,
        update: StateUpdate,
        decrypt: &F,
    ) -> (r: Result<(), ApplyError>)
        requires
            old(self).wf(),
            forall|c: &EncryptedNote, s: &SecretKey| decrypt.requires((c, s)),
        ensures
            final(self).wf(),
            final(self).keeps_setting(old(self)),
            match r {
                Ok(()) => {
                    &&& none_spent(update.nullifiers@, old(self)@.nullifiers, update.nullifiers.len() as int)
                    &&& has_room(old(self)@.leaves, old(self).height(), update)
                    &&& exists|outcomes: Seq<Option<(Note, SecretKey)>>| #[trigger]
                        is_applied(
                            decrypt,
                            old(self).secret_keys(),
                            old(self).height(),
                            old(self)@,
                            update,
                            outcomes,
                            final(self)@,
                        )
                },
                Err(ApplyError::DuplicateNullifier(i)) => {
                    &&& i < update.nullifiers.len()
                    &&& old(self)@.nullifiers.contains(update.nullifiers[i as int]@)
                    &&& none_spent(update.nullifiers@, old(self)@.nullifiers, i as int)
                    &&& *final(self) == *old(self)
                },
                Err(ApplyError::TreeFull) => {
                    &&& none_spent(update.nullifiers@, old(self)@.nullifiers, update.nullifiers.len() as int)
                    &&& !has_room(old(self)@.leaves, old(self).height(), update)
                    &&& *final(self) == *old(self)
                },
            },
    {
        if let Some(i) = self.first_spent(&update.nullifiers) {
            return Err(ApplyError::DuplicateNullifier(i));
        }
        let pairs: usize = if update.coins.len() <= update.enc_notes.len() {
            update.coins.len()
        } else {
            update.enc_notes.len()
        };
        proof {
            self.tree.lemma_bounds();
        }
        if pairs as u64 > self.tree.capacity() - self.tree.size() {
            return Err(ApplyError::TreeFull);
        }
        self.apply(update, decrypt);
        Ok(())
    }

    /// What the ledger holds as owned is the view of the wallet's coins.
    pub proof fn lemma_owned_is_wallet_view(&self)
        ensures
            self@.owned == owned_view(self.own_coins()),
    {
    }

    /// The views of the wallet's coins are what the ledger holds as owned, and in a
    /// well-formed state the witness of each has seen the leaves of the tree, all of
    /// them and no others, and stands for its coin.
    pub proof fn lemma_witnesses_follow_tree(&self)
        requires
            self.wf(),
        ensures
            self@.owned == owned_view(self.own_coins()),
            self.witnesses_follow_tree(),
            self@.leaves.len() <= pow2(self.height()),
    {
        self.tree.lemma_bounds();
    }

    /// Every coin of the wallet is proved by its witness against the tree as it
    /// stands: whenever it was found and however many coins came after it, its
    /// authentication path leads from the coin to the root of the tree.
    pub proof fn lemma_owned_coins_prove_inclusion(&self)
        requires
            self.wf(),
        ensures
            forall|i: int|
                0 <= i < self@.owned.len() ==> proves_inclusion(
                    #[trigger] self@.owned[i],
                    self@.leaves,
                    self.height(),
                ),
    {
        self.tree.lemma_bounds();
        assert forall|i: int| 0 <= i < self@.owned.len() implies proves_inclusion(
            #[trigger] self@.owned[i],
            self@.leaves,
            self.height(),
        ) by {
            let own = self.wallet.coins()[i];
            own.witness.lemma_bounds();
            lemma_auth_path_leads_to_root(self.tree@, self.tree.height(), own.witness.leaf_position());
        }
    }

    /// The root history of a well-formed state is exactly the set of the roots that
    /// the tree has had: that of the empty tree and that after each append. It is
    /// finite, and the root of the tree as it stands is in it.
    pub proof fn lemma_root_history(&self)
        requires
            self.wf(),
        ensures
            self@.roots == roots_of(self@.leaves, self.height()),
            self@.roots.finite(),
            self@.roots.contains(tree_root(self@.leaves, self.height())),
    {
        self.merkle_roots.lemma_finite();
        let leaves = self.tree@;
        assert(leaves.take(leaves.len() as int) =~= leaves);
    }
}

/// The roots of a tree that has grown by one leaf are those it had, and its new root.
pub proof fn lemma_roots_of_push(leaves: Seq<Seq<u8>>, leaf: Seq<u8>, height: nat)
    ensures
        roots_of(leaves.push(leaf), height) == roots_of(leaves, height).insert(
            tree_root(leaves.push(leaf), height),
        ),
{
    let grown = leaves.push(leaf);
    let lhs = roots_of(grown, height);
    let rhs = roots_of(leaves, height).insert(tree_root(grown, height));
    assert(grown.take(grown.len() as int) =~= grown);
    assert forall|r: Seq<u8>| lhs.contains(r) <==> rhs.contains(r) by {
        if lhs.contains(r) {
            let n = choose|n: int| 0 <= n <= grown.len() && r == #[trigger] tree_root(grown.take(n), height);
            if n <= leaves.len() {
                assert(grown.take(n) =~= leaves.take(n));
            }
        }
        if roots_of(leaves, height).contains(r) {
            let n = choose|n: int| 0 <= n <= leaves.len() && r == #[trigger] tree_root(leaves.take(n), height);
            assert(grown.take(n) =~= leaves.take(n));
        }
    }
}

/// The roots that a tree has had are finitely many.
pub proof fn lemma_roots_of_finite(leaves: Seq<Seq<u8>>, height: nat)
    ensures
        roots_of(leaves, height).finite(),
    decreases leaves.len(),
{
    if leaves.len() == 0 {
        assert(leaves.take(0) =~= leaves);
        assert(roots_of(leaves, height) =~= Set::<Seq<u8>>::empty().insert(tree_root(leaves, height)));
    } else {
        lemma_roots_of_finite(leaves.drop_last(), height);
        lemma_roots_of_push(leaves.drop_last(), leaves.last(), height);
        assert(leaves.drop_last().push(leaves.last()) =~= leaves);
    }
}

/// The root history never shrinks. Each append adds the new root of the tree to
/// it and nothing else: it grows by one entry, unless the tree has had that very
/// root before, which only a collision of the hash can bring about.
pub proof fn lemma_root_history_grows(leaves: Seq<Seq<u8>>, leaf: Seq<u8>, height: nat)
    ensures
        roots_of(leaves, height).finite(),
        roots_of(leaves, height).subset_of(roots_of(leaves.push(leaf), height)),
        roots_of(leaves.push(leaf), height).contains(tree_root(leaves.push(leaf), height)),
        roots_of(leaves.push(leaf), height).len() == roots_of(leaves, height).len() + (if roots_of(
            leaves,
            height,
        ).contains(tree_root(leaves.push(leaf), height)) {
            0nat
        } else {
            1nat
        }),
{
    lemma_roots_of_finite(leaves, height);
    lemma_roots_of_push(leaves, leaf, height);
}

/// What applying an update does to each part of the ledger: the tree grows by the
/// coins of the update, in their order, and by nothing else; the root history
/// and the coins of the wallet keep what they had; the nullifiers are those there
/// were and those of the update.
pub proof fn lemma_applied_grows(
    ledger: Ledger,
    height: nat,
    update: StateUpdate,
    outcomes: Seq<Option<(Note, SecretKey)>>,
)
    requires
        outcomes.len() == update.pairs(),
    ensures
        applied(ledger, height, update, outcomes).leaves == ledger.leaves + coins_view(
            update.coins@.take(update.pairs() as int),
        ),
        ledger.roots.subset_of(applied(ledger, height, update, outcomes).roots),
        applied(ledger, height, update, outcomes).nullifiers == ledger.nullifiers.union(
            nullifier_set(update.nullifiers@),
        ),
        ledger.owned.is_prefix_of(applied(ledger, height, update, outcomes).owned),
        applied(ledger, height, update, outcomes).owned.len() <= ledger.owned.len()
            + update.pairs(),
{
    lemma_with_coins_grows(
        with_nullifiers(ledger, update.nullifiers@),
        height,
        update.coins@.take(update.pairs() as int),
        outcomes,
    );
}

/// What appending coins does to each part of the ledger.
proof fn lemma_with_coins_grows(
    ledger: Ledger,
    height: nat,
    coins: Seq<Coin>,
    outcomes: Seq<Option<(Note, SecretKey)>>,
)
    requires
        outcomes.len() == coins.len(),
    ensures
        with_coins(ledger, height, coins, outcomes).leaves == ledger.leaves + coins_view(coins),
        ledger.roots.subset_of(with_coins(ledger, height, coins, outcomes).roots),
        with_coins(ledger, height, coins, outcomes).nullifiers == ledger.nullifiers,
        ledger.owned.is_prefix_of(with_coins(ledger, height, coins, outcomes).owned),
        with_coins(ledger, height, coins, outcomes).owned.len() <= ledger.owned.len() + coins.len(),
    decreases coins.len(),
{
    if coins.len() == 0 {
        assert(ledger.leaves + coins_view(coins) =~= ledger.leaves);
    } else {
        lemma_with_coins_grows(ledger, height, coins.drop_last(), outcomes.drop_last());
        let before = with_coins(ledger, height, coins.drop_last(), outcomes.drop_last());
        assert(before.leaves.push(coins.last()@) =~= ledger.leaves + coins_view(coins));
    }
}

} // verus!
