//! What a commitment tree is, as mathematics: the node at every place of a tree
//! over a sequence of leaves, the authentication path of a leaf, and the laws
//! that the incremental code rests on.
//!
//! Places are named by a level and an index: level 0 holds the leaves, and the
//! node `index` of a level has the children `2 * index` and `2 * index + 1` one
//! level below.

use crate::crypto::merkle_node::{blank_leaf, merkle_combine};
use vstd::arithmetic::power2::{lemma2_to64, lemma_pow2_unfold, pow2};
use vstd::prelude::*;

verus! {

/// The index, at `level`, of the node above the leaf at `position`.
pub open spec fn path_index(position: nat, level: nat) -> nat
    decreases level,
{
    if level == 0 {
        position
    } else {
        path_index(position, (level - 1) as nat) / 2
    }
}

/// The index of the node that shares its parent with the node `index`.
pub open spec fn sibling(index: nat) -> nat {
    if index % 2 == 0 {
        index + 1
    } else {
        (index - 1) as nat
    }
}

/// The leaf at `position`: the one appended there, or the blank leaf.
pub open spec fn leaf_at(leaves: Seq<Seq<u8>>, position: nat) -> Seq<u8> {
    if position < leaves.len() {
        leaves[position as int]
    } else {
        blank_leaf()
    }
}

/// The node at `index` of `level` in the tree over `leaves`, every position past
/// the last leaf holding the blank leaf.
pub open spec fn node_at(leaves: Seq<Seq<u8>>, level: nat, index: nat) -> Seq<u8>
    decreases level,
{
    if level == 0 {
        leaf_at(leaves, index)
    } else {
        merkle_combine(
            (level - 1) as nat,
            node_at(leaves, (level - 1) as nat, 2 * index),
            node_at(leaves, (level - 1) as nat, 2 * index + 1),
        )
    }
}

/// The root of a subtree of height `level` that holds no leaf.
pub open spec fn empty_root(level: nat) -> Seq<u8> {
    node_at(Seq::empty(), level, 0)
}

/// The root of the tree of height `depth` over `leaves`.
pub open spec fn tree_root(leaves: Seq<Seq<u8>>, depth: nat) -> Seq<u8> {
    node_at(leaves, depth, 0)
}

/// The authentication path of the leaf at `position`: for each level below the
/// root, the sibling of the node above that leaf.
pub open spec fn auth_path(leaves: Seq<Seq<u8>>, depth: nat, position: nat) -> Seq<Seq<u8>> {
    Seq::new(depth, |level: int| node_at(leaves, level as nat, sibling(path_index(position, level as nat))))
}

/// The root that a leaf and a path of siblings lead to: at each level the node
/// reached so far is joined with the sibling, on the side that `position` tells.
pub open spec fn root_from_path(leaf: Seq<u8>, position: nat, path: Seq<Seq<u8>>) -> Seq<u8>
    decreases path.len(),
{
    if path.len() == 0 {
        leaf
    } else {
        let level = (path.len() - 1) as nat;
        let below = root_from_path(leaf, position, path.drop_last());
        if path_index(position, level) % 2 == 0 {
            merkle_combine(level, below, path.last())
        } else {
            merkle_combine(level, path.last(), below)
        }
    }
}

/// Positions in order have path indices in order, at every level.
pub proof fn lemma_path_index_monotone(p: nat, q: nat, level: nat)
    requires
        p <= q,
    ensures
        path_index(p, level) <= path_index(q, level),
    decreases level,
{
    if level > 0 {
        lemma_path_index_monotone(p, q, (level - 1) as nat);
    }
}

/// Two paths that meet at a level stay together above it.
pub proof fn lemma_paths_stay_merged(p: nat, q: nat, low: nat, high: nat)
    requires
        low <= high,
        path_index(p, low) == path_index(q, low),
    ensures
        path_index(p, high) == path_index(q, high),
    decreases high,
{
    if low < high {
        lemma_paths_stay_merged(p, q, low, (high - 1) as nat);
    }
}

/// The path index at `level + 1` is that of the halved position at `level`.
proof fn lemma_path_index_of_half(position: nat, level: nat)
    ensures
        path_index(position, level + 1) == path_index(position / 2, level),
    decreases level,
{
    assert(path_index(position, level + 1) == path_index(position, level) / 2);
    if level > 0 {
        lemma_path_index_of_half(position, (level - 1) as nat);
    }
}

/// A position within the capacity of a tree of height `depth` lies under its
/// root, whose index is 0; the first position past the capacity lies under index 1.
pub proof fn lemma_path_index_at_depth(position: nat, depth: nat)
    requires
        position <= pow2(depth),
    ensures
        position < pow2(depth) ==> path_index(position, depth) == 0,
        position == pow2(depth) ==> path_index(position, depth) == 1,
    decreases depth,
{
    if depth == 0 {
        assert(pow2(0) == 1) by {
            lemma2_to64();
        }
    } else {
        lemma_pow2_unfold(depth);
        lemma_path_index_of_half(position, (depth - 1) as nat);
        lemma_path_index_at_depth(position / 2, (depth - 1) as nat);
    }
}

/// A node depends only on the leaves below it: two sequences of leaves that agree
/// at every position under the node give the same node.
pub proof fn lemma_node_local(a: Seq<Seq<u8>>, b: Seq<Seq<u8>>, level: nat, index: nat)
    requires
        forall|p: nat| #[trigger] path_index(p, level) == index ==> leaf_at(a, p) == leaf_at(b, p),
    ensures
        node_at(a, level, index) == node_at(b, level, index),
    decreases level,
{
    if level == 0 {
        assert(path_index(index, 0) == index);
    } else {
        let below = (level - 1) as nat;
        assert forall|p: nat| #[trigger] path_index(p, below) == 2 * index implies leaf_at(a, p)
            == leaf_at(b, p) by {
            assert(path_index(p, level) == index);
        }
        lemma_node_local(a, b, below, 2 * index);
        assert forall|p: nat| #[trigger] path_index(p, below) == 2 * index + 1 implies leaf_at(a, p)
            == leaf_at(b, p) by {
            assert(path_index(p, level) == index);
        }
        lemma_node_local(a, b, below, 2 * index + 1);
    }
}

/// Appending a leaf changes only the nodes above the position that it takes.
pub proof fn lemma_node_after_push(leaves: Seq<Seq<u8>>, leaf: Seq<u8>, level: nat, index: nat)
    requires
        index != path_index(leaves.len(), level),
    ensures
        node_at(leaves.push(leaf), level, index) == node_at(leaves, level, index),
{
    assert forall|p: nat| #[trigger] path_index(p, level) == index implies leaf_at(
        leaves.push(leaf),
        p,
    ) == leaf_at(leaves, p) by {
        assert(p != leaves.len());
    }
    lemma_node_local(leaves.push(leaf), leaves, level, index);
}

/// In a tree without leaves, every node of a level is that level's empty root.
pub proof fn lemma_empty_nodes_alike(level: nat, index: nat)
    ensures
        node_at(Seq::empty(), level, index) == empty_root(level),
    decreases level,
{
    if level > 0 {
        let below = (level - 1) as nat;
        lemma_empty_nodes_alike(below, 2 * index);
        lemma_empty_nodes_alike(below, 2 * index + 1);
        lemma_empty_nodes_alike(below, 0);
        lemma_empty_nodes_alike(below, 1);
    }
}

/// The empty root of a level is the hash of two empty roots of the level below.
pub proof fn lemma_empty_root_unfold(level: nat)
    ensures
        empty_root(level + 1) == merkle_combine(level, empty_root(level), empty_root(level)),
{
    lemma_empty_nodes_alike(level, 1);
}

/// A node to the right of the path of `last` is an empty root, if no leaf stands
/// past `last`.
pub proof fn lemma_node_beyond(leaves: Seq<Seq<u8>>, last: nat, level: nat, index: nat)
    requires
        leaves.len() <= last + 1,
        index > path_index(last, level),
    ensures
        node_at(leaves, level, index) == empty_root(level),
{
    assert forall|p: nat| #[trigger] path_index(p, level) == index implies leaf_at(leaves, p)
        == leaf_at(Seq::empty(), p) by {
        if p <= last {
            lemma_path_index_monotone(p, last, level);
        }
    }
    lemma_node_local(leaves, Seq::empty(), level, index);
    lemma_empty_nodes_alike(level, index);
}

/// Followed up to any level, the authentication path of a leaf leads to the node
/// above that leaf.
pub proof fn lemma_path_reaches_node(leaves: Seq<Seq<u8>>, depth: nat, position: nat, level: nat)
    requires
        level <= depth,
    ensures
        root_from_path(
            leaf_at(leaves, position),
            position,
            auth_path(leaves, depth, position).subrange(0, level as int),
        ) == node_at(leaves, level, path_index(position, level)),
    decreases level,
{
    let path = auth_path(leaves, depth, position).subrange(0, level as int);
    if level > 0 {
        let below = (level - 1) as nat;
        lemma_path_reaches_node(leaves, depth, position, below);
        assert(path.drop_last() =~= auth_path(leaves, depth, position).subrange(0, below as int));
    }
}

/// The authentication path of any leaf of a tree leads to the root of that tree:
/// a witness that holds this path proves the leaf against the tree as it stands.
pub proof fn lemma_auth_path_leads_to_root(leaves: Seq<Seq<u8>>, depth: nat, position: nat)
    requires
        position < leaves.len() <= pow2(depth),
    ensures
        root_from_path(leaves[position as int], position, auth_path(leaves, depth, position))
            == tree_root(leaves, depth),
{
    lemma_path_reaches_node(leaves, depth, position, depth);
    lemma_path_index_at_depth(position, depth);
    assert(auth_path(leaves, depth, position).subrange(0, depth as int) =~= auth_path(
        leaves,
        depth,
        position,
    ));
}

} // verus!
