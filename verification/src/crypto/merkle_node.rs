//! Nodes of the commitment tree, and the hash that joins two of them.

use crate::crypto::coin::Coin;
use crate::crypto::repr::same_bytes;
use vstd::prelude::*;
use vstd::std_specs::cmp::PartialEqSpecImpl;

verus! {

/// The hash of two children at a level of the tree: what `sapling_crypto::merkle_hash`
/// returns for the level and the two children's bytes.
pub uninterp spec fn merkle_combine(level: nat, lhs: Seq<u8>, rhs: Seq<u8>) -> Seq<u8>;

/// The highest level plus one at which two nodes can be joined: the hash keeps
/// the level in six bits, of which the value 63 is taken.
pub const MAX_LEVELS: usize = 63;

/// The leaf that stands where no coin has been appended yet.
pub open spec fn blank_leaf() -> Seq<u8> {
    Seq::new(32, |i: int| if i == 0 { 1u8 } else { 0u8 })
}

/// Calls `sapling_crypto::merkle_hash`: the Pedersen hash of the first 255 bits of
/// each child, personalised by the level. It is a function of its three arguments,
/// and it panics from level 63 on.
#[verifier::external_body]
fn pedersen_merkle_hash(level: usize, lhs: &[u8; 32], rhs: &[u8; 32]) -> (out: [u8; 32])
    requires
        level < MAX_LEVELS,
    ensures
        out@ == merkle_combine(level as nat, lhs@, rhs@),
{
    sapling_crypto::merkle_hash(level, lhs, rhs)
}

/// A node of the commitment tree: a leaf made from a coin, or the hash of two
/// children. Its view is its 32 bytes.
#[derive(Clone, Copy, Debug)]
pub struct MerkleNode {
    pub repr: [u8; 32],
}

impl View for MerkleNode {
    type V = Seq<u8>;

    open spec fn view(&self) -> Seq<u8> {
        self.repr@
    }
}

impl MerkleNode {
    /// The node with the representation `repr`.
    pub fn new(repr: [u8; 32]) -> (r: Self)
        ensures
            r.repr == repr,
    {
        MerkleNode { repr }
    }

    /// The leaf of a coin: the coin's own bytes.
    pub fn from_coin(coin: &Coin) -> (r: Self)
        ensures
            r@ == coin@,
    {
        MerkleNode { repr: coin.repr }
    }

    /// The leaf of a position that holds no coin.
    pub fn blank() -> (r: Self)
        ensures
            r@ == blank_leaf(),
    {
        let mut repr = [0u8;32];
        repr[0] = 1;
        let r = MerkleNode { repr };
        r
    }

    /// The parent of `lhs` and `rhs`, which stand at `level`.
    pub fn combine(level: usize, lhs: &Self, rhs: &Self) -> (r: Self)
        requires
            level < MAX_LEVELS,
        ensures
            r@ == merkle_combine(level as nat, lhs@, rhs@),
    {
        MerkleNode { repr: pedersen_merkle_hash(level, &lhs.repr, &rhs.repr) }
    }
}

impl PartialEq for MerkleNode {
    fn eq(&self, other: &Self) -> (r: bool) {
        same_bytes(&self.repr, &other.repr)
    }
}

impl Eq for MerkleNode {

}

impl PartialEqSpecImpl for MerkleNode {
    open spec fn obeys_eq_spec() -> bool {
        true
    }

    open spec fn eq_spec(&self, other: &Self) -> bool {
        self.repr@ == other.repr@
    }
}

} // verus!
