//! The commitment tree: an append-only Merkle tree that keeps, of all its
//! leaves, only the nodes that later appends still need.

use crate::crypto::merkle_node::{MerkleNode, MAX_LEVELS};
use crate::crypto::merkle_spec::{
    auth_path, empty_root, lemma_auth_path_leads_to_root, lemma_empty_root_unfold,
    lemma_node_after_push, lemma_node_beyond, lemma_path_index_at_depth, lemma_paths_stay_merged,
    node_at, path_index, root_from_path, sibling, tree_root,
};
use vstd::arithmetic::power2::{
    lemma2_to64, lemma2_to64_rest, lemma_pow2_pos, lemma_pow2_strictly_increases, lemma_pow2_unfold,
    pow2,
};
use vstd::prelude::*;

verus! {

/// The height of the tree that the ledger keeps.
pub const TREE_DEPTH: usize = 32;

/// Why a tree could not be made or could not grow.
#[derive(Debug, Clone, Copy, PartialEq, Eq, Structural)]
pub enum TreeError {
    /// The tree holds as many leaves as its height allows.
    Full,
    /// The height asked for is more than the hash has levels.
    TooDeep,
}

/// Whether `nodes` holds, at `level`, the left sibling of the node above
/// `position`, wherever that node is a right child.
spec fn holds_left_sibling(
    nodes: Seq<MerkleNode>,
    leaves: Seq<Seq<u8>>,
    position: nat,
    level: nat,
) -> bool {
    path_index(position, level) % 2 == 1 ==> nodes[level as int]@ == node_at(
        leaves,
        level,
        (path_index(position, level) - 1) as nat,
    )
}

/// Whether `nodes` holds the empty root of `level` at `level`.
spec fn holds_empty_root(nodes: Seq<MerkleNode>, level: nat) -> bool {
    nodes[level as int]@ == empty_root(level)
}

/// An append-only Merkle tree of a fixed height over coin commitments. Its view is
/// the sequence of the leaves appended so far, in order.
pub struct CommitmentTree {
    depth: usize,
    capacity: u64,
    size: u64,
    latest: MerkleNode,
    frontier: Vec<MerkleNode>,
    empty_roots: Vec<MerkleNode>,
    leaves: Ghost<Seq<Seq<u8>>>,
}

impl View for CommitmentTree {
    type V = Seq<Seq<u8>>;

    closed spec fn view(&self) -> Seq<Seq<u8>> {
        self.leaves@
    }
}

impl CommitmentTree {
    /// The height of the tree: the number of levels below its root.
    pub closed spec fn height(&self) -> nat {
        self.depth as nat
    }

    /// What holds of every tree that this module hands out: it keeps no more leaves
    /// than its height allows, and for the position of the next leaf and for that of
    /// the last one it holds the left siblings along the way to the root.
    pub closed spec fn wf(&self) -> bool {
        &&& self.depth <= MAX_LEVELS
        &&& self.capacity == pow2(self.depth as nat)
        &&& self.size == self.leaves@.len()
        &&& self.size <= self.capacity
        &&& self.frontier.len() == self.depth + 1
        &&& self.empty_roots.len() == self.depth + 1
        &&& forall|level: nat| level <= self.depth ==> #[trigger] holds_empty_root(self.empty_roots@, level)
        &&& forall|level: nat|
            level <= self.depth ==> #[trigger] holds_left_sibling(
                self.frontier@,
                self.leaves@,
                self.size as nat,
                level,
            )
        &&& self.size >= 1 ==> {
            &&& self.latest@ == self.leaves@[self.size - 1]
            &&& forall|level: nat|
                level <= self.depth ==> #[trigger] holds_left_sibling(
                    self.frontier@,
                    self.leaves@,
                    (self.size - 1) as nat,
                    level,
                )
        }
    }

    /// A well-formed tree holds no more leaves than `2^height`, and its height is
    /// within what the hash allows.
    pub proof fn lemma_bounds(&self)
        requires
            self.wf(),
        ensures
            self@.len() <= pow2(self.height()),
            self.height() <= MAX_LEVELS,
            pow2(self.height()) <= u64::MAX,
    {
        lemma2_to64_rest();
        if self.depth < 63 {
            lemma_pow2_strictly_increases(self.depth as nat, 63);
        }
    }

    /// The tree of the ledger's height that holds no leaf.
    pub fn empty() -> (r: Self)
        ensures
            r.wf(),
            r.height() == TREE_DEPTH,
            r@ == Seq::<Seq<u8>>::empty(),
    {
        Self::build(TREE_DEPTH)
    }

    /// The tree of height `depth` that holds no leaf, if the hash has that many levels.
    pub fn with_depth(depth: usize) -> (r: Result<Self, TreeError>)
        ensures
            match r {
                Ok(tree) => depth <= MAX_LEVELS && tree.wf() && tree.height() == depth && tree@
                    == Seq::<Seq<u8>>::empty(),
                Err(e) => depth > MAX_LEVELS && e == TreeError::TooDeep,
            },
    {
        if depth > MAX_LEVELS {
            return Err(TreeError::TooDeep);
        }
        Ok(Self::build(depth))
    }

    /// Makes the empty tree of height `depth`: the empty root of every level, and a
    /// frontier that holds nothing yet.
    fn build(depth: usize) -> (tree: Self)
        requires
            depth <= MAX_LEVELS,
        ensures
            tree.wf(),
            tree.height() == depth,
            tree@ == Seq::<Seq<u8>>::empty(),
    {
        let blank = MerkleNode::blank();
        let mut empty_roots: Vec<MerkleNode> = Vec::new();
        let mut frontier: Vec<MerkleNode> = Vec::new();
        empty_roots.push(blank);
        frontier.push(blank);
        let mut capacity: u64 = 1;
        let mut level: usize = 0;
        proof {
            lemma2_to64();
        }
        while level < depth
            invariant
                level <= depth <= MAX_LEVELS,
                capacity == pow2(level as nat),
                empty_roots.len() == level + 1,
                frontier.len() == level + 1,
                forall|l: nat| l <= level ==> #[trigger] holds_empty_root(empty_roots@, l),
            decreases depth - level,
        {
            let below = empty_roots[level];
            assert(holds_empty_root(empty_roots@, level as nat));
            let next = MerkleNode::combine(level, &below, &below);
            proof {
                lemma_empty_root_unfold(level as nat);
                lemma_pow2_unfold((level + 1) as nat);
                lemma2_to64_rest();
                if level + 1 < 63 {
                    lemma_pow2_strictly_increases((level + 1) as nat, 63);
                }
            }
            let ghost before = empty_roots@;
            empty_roots.push(next);
            frontier.push(blank);
            capacity = capacity * 2;
            level = level + 1;
            assert forall|l: nat| l <= level implies #[trigger] holds_empty_root(empty_roots@, l) by {
                if l < level {
                    assert(holds_empty_root(before, l));
                }
            }
        }
        let tree = CommitmentTree {
            depth,
            capacity,
            size: 0,
            latest: blank,
            frontier,
            empty_roots,
            leaves: Ghost(Seq::empty()),
        };
        proof {
            assert forall|l: nat| l <= depth implies #[trigger] holds_left_sibling(
                tree.frontier@,
                tree.leaves@,
                0,
                l,
            ) by {
                lemma_path_index_at_depth(0, l);
                lemma_pow2_pos(l);
            }
        }
        tree
    }

    /// The number of levels below the root.
    pub fn depth(&self) -> (r: usize)
        ensures
            r == self.height(),
    {
        self.depth
    }

    /// The number of leaves appended so far.
    pub fn size(&self) -> (r: u64)
        requires
            self.wf(),
        ensures
            r == self@.len(),
    {
        self.size
    }

    /// The number of leaves that the tree has room for in all: `2^height`.
    pub fn capacity(&self) -> (r: u64)
        requires
            self.wf(),
        ensures
            r == pow2(self.height()),
    {
        self.capacity
    }

    /// Whether the tree has no room for another leaf.
    pub fn is_full(&self) -> (r: bool)
        requires
            self.wf(),
        ensures
            r == (self@.len() == pow2(self.height())),
    {
        self.size == self.capacity
    }

    /// Appends `node` as the next leaf. A full tree refuses it and stays as it is.
    pub fn append(&mut self, node: MerkleNode) -> (r: Result<(), TreeError>)
        requires
            old(self).wf(),
        ensures
            final(self).wf(),
            final(self).height() == old(self).height(),
            match r {
                Ok(()) => {
                    &&& old(self)@.len() < pow2(old(self).height())
                    &&& final(self)@ == old(self)@.push(node@)
                },
                Err(e) => {
                    &&& e == TreeError::Full
                    &&& old(self)@.len() == pow2(old(self).height())
                    &&& *final(self) == *old(self)
                },
            },
    {
        if self.size == self.capacity {
            return Err(TreeError::Full);
        }
        let n = self.size;
        let depth = self.depth;
        let ghost old_leaves = self.leaves@;
        let ghost new_leaves = old_leaves.push(node@);
        let ghost old_frontier = self.frontier@;
        let mut cur = node;
        let mut idx: u64 = n;
        let mut level: usize = 0;
        proof {
            lemma_path_index_at_depth(n as nat, depth as nat);
        }
        while idx % 2 == 1
            invariant
                depth <= MAX_LEVELS,
                n == old_leaves.len(),
                new_leaves == old_leaves.push(node@),
                self.frontier@ == old_frontier,
                self.frontier.len() == depth + 1,
                path_index(n as nat, depth as nat) == 0,
                idx == path_index(n as nat, level as nat),
                path_index((n + 1) as nat, level as nat) == idx + 1,
                cur@ == node_at(new_leaves, level as nat, idx as nat),
                forall|l: nat| l < level ==> #[trigger] path_index((n + 1) as nat, l) % 2 == 0,
                forall|l: nat| l < level ==> #[trigger] path_index(n as nat, l) % 2 == 1,
                forall|l: nat|
                    l <= depth ==> #[trigger] holds_left_sibling(old_frontier, old_leaves, n as nat, l),
            decreases depth - level,
        {
            assert(holds_left_sibling(old_frontier, old_leaves, n as nat, level as nat));
            proof {
                lemma_node_after_push(old_leaves, node@, level as nat, (idx - 1) as nat);
            }
            cur = MerkleNode::combine(level, &self.frontier[level], &cur);
            idx = idx / 2;
            level = level + 1;
        }
        self.frontier.set(level, cur);
        self.latest = node;
        self.size = n + 1;
        self.leaves = Ghost(new_leaves);
        proof {
            assert forall|l: nat| l <= depth implies #[trigger] holds_left_sibling(
                self.frontier@,
                new_leaves,
                (n + 1) as nat,
                l,
            ) by {
                if l > level {
                    lemma_paths_stay_merged((n + 1) as nat, n as nat, (level + 1) as nat, l);
                    assert(holds_left_sibling(old_frontier, old_leaves, n as nat, l));
                    if path_index(n as nat, l) % 2 == 1 {
                        lemma_node_after_push(
                            old_leaves,
                            node@,
                            l,
                            (path_index(n as nat, l) - 1) as nat,
                        );
                    }
                }
            }
            assert forall|l: nat| l <= depth implies #[trigger] holds_left_sibling(
                self.frontier@,
                new_leaves,
                n as nat,
                l,
            ) by {
                assert(holds_left_sibling(old_frontier, old_leaves, n as nat, l));
                if path_index(n as nat, l) % 2 == 1 {
                    lemma_node_after_push(old_leaves, node@, l, (path_index(n as nat, l) - 1) as nat);
                }
            }
        }
        Ok(())
    }

    /// The root of the tree as it stands: that of the tree of this height over the
    /// leaves appended so far, blank leaves filling the rest.
    pub fn root(&self) -> (r: MerkleNode)
        requires
            self.wf(),
        ensures
            r@ == tree_root(self@, self.height()),
    {
        let depth = self.depth;
        proof {
            lemma_path_index_at_depth(self.size as nat, depth as nat);
        }
        if self.size == self.capacity {
            assert(holds_left_sibling(self.frontier@, self.leaves@, self.size as nat, depth as nat));
            return self.frontier[depth];
        }
        let mut acc = MerkleNode::blank();
        let mut idx: u64 = self.size;
        let mut level: usize = 0;
        while level < depth
            invariant
                level <= depth,
                depth == self.depth,
                self.wf(),
                idx == path_index(self.size as nat, level as nat),
                acc@ == node_at(self.leaves@, level as nat, idx as nat),
            decreases depth - level,
        {
            if idx % 2 == 1 {
                assert(holds_left_sibling(
                    self.frontier@,
                    self.leaves@,
                    self.size as nat,
                    level as nat,
                ));
                acc = MerkleNode::combine(level, &self.frontier[level], &acc);
            } else {
                assert(holds_empty_root(self.empty_roots@, level as nat));
                proof {
                    lemma_node_beyond(self.leaves@, self.size as nat, level as nat, (idx + 1) as nat);
                }
                acc = MerkleNode::combine(level, &acc, &self.empty_roots[level]);
            }
            idx = idx / 2;
            level = level + 1;
        }
        acc
    }
}

impl Clone for CommitmentTree {
    /// A second tree with the same leaves.
    fn clone(&self) -> (r: Self)
        ensures
            self.wf() ==> r.wf(),
            r@ == self@,
            r.height() == self.height(),
    {
        CommitmentTree {
            depth: self.depth,
            capacity: self.capacity,
            size: self.size,
            latest: self.latest,
            frontier: copy_nodes(&self.frontier),
            empty_roots: copy_nodes(&self.empty_roots),
            leaves: Ghost(self.leaves@),
        }
    }
}

/// A copy of `nodes`.
fn copy_nodes(nodes: &Vec<MerkleNode>) -> (r: Vec<MerkleNode>)
    ensures
        r@ == nodes@,
{
    let mut out: Vec<MerkleNode> = Vec::new();
    let mut i: usize = 0;
    while i < nodes.len()
        invariant
            i <= nodes.len(),
            out@ == nodes@.subrange(0, i as int),
        decreases nodes.len() - i,
    {
        out.push(nodes[i]);
        i = i + 1;
    }
    out
}

/// The bytes of each node of `nodes`, in order.
pub open spec fn nodes_view(nodes: Seq<MerkleNode>) -> Seq<Seq<u8>> {
    Seq::new(nodes.len(), |i: int| nodes[i]@)
}

/// The root that `leaf`, standing at `position`, and the siblings in `path` lead
/// to. The path's first node is the leaf's own sibling.
pub fn root_of_path(leaf: &MerkleNode, position: u64, path: &Vec<MerkleNode>) -> (r: MerkleNode)
    requires
        path.len() <= MAX_LEVELS,
    ensures
        r@ == root_from_path(leaf@, position as nat, nodes_view(path@)),
{
    let ghost whole = nodes_view(path@);
    let mut acc = *leaf;
    let mut idx: u64 = position;
    let mut level: usize = 0;
    while level < path.len()
        invariant
            level <= path.len() <= MAX_LEVELS,
            whole == nodes_view(path@),
            idx == path_index(position as nat, level as nat),
            acc@ == root_from_path(leaf@, position as nat, whole.subrange(0, level as int)),
        decreases path.len() - level,
    {
        let ghost next = whole.subrange(0, level + 1);
        assert(next.drop_last() =~= whole.subrange(0, level as int));
        if idx % 2 == 0 {
            acc = MerkleNode::combine(level, &acc, &path[level]);
        } else {
            acc = MerkleNode::combine(level, &path[level], &acc);
        }
        idx = idx / 2;
        level = level + 1;
    }
    assert(whole.subrange(0, level as int) =~= whole);
    acc
}

/// Whether `nodes` holds, at `level`, the sibling of the node above `position`.
spec fn holds_sibling(
    nodes: Seq<MerkleNode>,
    leaves: Seq<Seq<u8>>,
    position: nat,
    level: nat,
) -> bool {
    nodes[level as int]@ == node_at(leaves, level, sibling(path_index(position, level)))
}

/// The authentication path of one leaf, kept up to date as the tree grows: it
/// proves that the leaf is in the tree as the tree now stands.
///
/// A witness is made for the last leaf of a tree and must then be given every
/// leaf that the tree is given, in the same order.
pub struct IncrementalWitness {
    tree: CommitmentTree,
    position: u64,
    leaf: MerkleNode,
    siblings: Vec<MerkleNode>,
}

impl IncrementalWitness {
    /// The leaves of the tree as the witness has seen it grow.
    pub closed spec fn leaves(&self) -> Seq<Seq<u8>> {
        self.tree@
    }

    /// The position of the leaf that the witness is for.
    pub closed spec fn leaf_position(&self) -> nat {
        self.position as nat
    }

    /// The height of the tree that the witness follows.
    pub closed spec fn height(&self) -> nat {
        self.tree.height()
    }

    /// What holds of every witness that this module hands out: its leaf is one of
    /// the leaves it has seen, and it holds that leaf's authentication path in the
    /// tree over those leaves.
    pub closed spec fn wf(&self) -> bool {
        &&& self.tree.wf()
        &&& self.position < self.tree.size
        &&& self.leaf@ == self.tree.leaves@[self.position as int]
        &&& self.siblings.len() == self.tree.depth
        &&& forall|level: nat|
            level < self.tree.depth ==> #[trigger] holds_sibling(
                self.siblings@,
                self.tree.leaves@,
                self.position as nat,
                level,
            )
    }

    /// The leaf of a well-formed witness is among the leaves it has seen, which
    /// are no more than the tree has room for.
    pub proof fn lemma_bounds(&self)
        requires
            self.wf(),
        ensures
            self.leaf_position() < self.leaves().len() <= pow2(self.height()),
            self.height() <= MAX_LEVELS,
    {
        self.tree.lemma_bounds();
    }

    /// The siblings that a well-formed witness holds are the authentication path
    /// of its leaf.
    proof fn lemma_holds_auth_path(&self)
        requires
            self.wf(),
        ensures
            nodes_view(self.siblings@) == auth_path(
                self.tree.leaves@,
                self.tree.depth as nat,
                self.position as nat,
            ),
    {
        let path = auth_path(self.tree.leaves@, self.tree.depth as nat, self.position as nat);
        assert forall|i: int| 0 <= i < self.siblings.len() implies nodes_view(self.siblings@)[i]
            == path[i] by {
            assert(holds_sibling(
                self.siblings@,
                self.tree.leaves@,
                self.position as nat,
                i as nat,
            ));
        }
    }

    /// The witness for the last leaf of `tree`; none for a tree without leaves.
    pub fn from_tree(tree: &CommitmentTree) -> (r: Option<Self>)
        requires
            tree.wf(),
        ensures
            match r {
                Some(w) => {
                    &&& tree@.len() >= 1
                    &&& w.wf()
                    &&& w.leaves() == tree@
                    &&& w.leaf_position() == tree@.len() - 1
                    &&& w.height() == tree.height()
                },
                None => tree@.len() == 0,
            },
    {
        if tree.size == 0 {
            return None;
        }
        let depth = tree.depth;
        let position: u64 = tree.size - 1;
        let mut siblings: Vec<MerkleNode> = Vec::new();
        let mut idx: u64 = position;
        let mut level: usize = 0;
        while level < depth
            invariant
                level <= depth,
                depth == tree.depth,
                tree.wf(),
                position == tree.size - 1,
                siblings.len() == level,
                idx == path_index(position as nat, level as nat),
                forall|l: nat|
                    l < level ==> #[trigger] holds_sibling(
                        siblings@,
                        tree.leaves@,
                        position as nat,
                        l,
                    ),
            decreases depth - level,
        {
            let ghost before = siblings@;
            if idx % 2 == 1 {
                assert(holds_left_sibling(
                    tree.frontier@,
                    tree.leaves@,
                    (tree.size - 1) as nat,
                    level as nat,
                ));
                siblings.push(tree.frontier[level]);
            } else {
                assert(holds_empty_root(tree.empty_roots@, level as nat));
                proof {
                    lemma_node_beyond(tree.leaves@, position as nat, level as nat, (idx + 1) as nat);
                }
                siblings.push(tree.empty_roots[level]);
            }
            assert forall|l: nat| l < level + 1 implies #[trigger] holds_sibling(
                siblings@,
                tree.leaves@,
                position as nat,
                l,
            ) by {
                if l < level {
                    assert(holds_sibling(before, tree.leaves@, position as nat, l));
                }
            }
            idx = idx / 2;
            level = level + 1;
        }
        Some(IncrementalWitness { tree: tree.clone(), position, leaf: tree.latest, siblings })
    }

    /// The position of the leaf that the witness is for.
    pub fn position(&self) -> (r: u64)
        ensures
            r == self.leaf_position(),
    {
        self.position
    }

    /// The leaf that the witness is for.
    pub fn leaf(&self) -> (r: MerkleNode)
        requires
            self.wf(),
        ensures
            r@ == self.leaves()[self.leaf_position() as int],
    {
        self.leaf
    }

    /// The number of leaves that the witness has seen, its own among them.
    pub fn tree_size(&self) -> (r: u64)
        requires
            self.wf(),
        ensures
            r == self.leaves().len(),
    {
        self.tree.size
    }

    /// Takes note of `node`, the leaf that the tree was given next. A witness whose
    /// tree is full refuses it and stays as it is.
    pub fn append(&mut self, node: MerkleNode) -> (r: Result<(), TreeError>)
        requires
            old(self).wf(),
        ensures
            final(self).wf(),
            final(self).height() == old(self).height(),
            final(self).leaf_position() == old(self).leaf_position(),
            match r {
                Ok(()) => {
                    &&& old(self).leaves().len() < pow2(old(self).height())
                    &&& final(self).leaves() == old(self).leaves().push(node@)
                },
                Err(e) => {
                    &&& e == TreeError::Full
                    &&& old(self).leaves().len() == pow2(old(self).height())
                    &&& *final(self) == *old(self)
                },
            },
    {
        if self.tree.size == self.tree.capacity {
            return Err(TreeError::Full);
        }
        let depth = self.tree.depth;
        let n: u64 = self.tree.size;
        let k: u64 = self.position;
        let ghost old_leaves = self.tree.leaves@;
        let ghost new_leaves = old_leaves.push(node@);
        let ghost old_tree = self.tree;
        let mut acc = node;
        let mut idx_n: u64 = n;
        let mut idx_k: u64 = k;
        let mut level: usize = 0;
        while level < depth && idx_n != idx_k
            invariant
                self.tree == old_tree,
                old_tree.wf(),
                depth == old_tree.depth,
                n == old_tree.size,
                old_leaves == old_tree.leaves@,
                new_leaves == old_leaves.push(node@),
                k == self.position,
                self.leaf == old(self).leaf,
                self.siblings.len() == depth,
                idx_n == path_index(n as nat, level as nat),
                idx_k == path_index(k as nat, level as nat),
                acc@ == node_at(new_leaves, level as nat, idx_n as nat),
                forall|l: nat|
                    l < level ==> #[trigger] holds_sibling(self.siblings@, new_leaves, k as nat, l),
                forall|l: nat|
                    level <= l < depth ==> #[trigger] holds_sibling(
                        self.siblings@,
                        old_leaves,
                        k as nat,
                        l,
                    ),
            decreases depth - level,
        {
            let ghost before = self.siblings@;
            assert(holds_sibling(before, old_leaves, k as nat, level as nat));
            if idx_n / 2 == idx_k / 2 {
                self.siblings.set(level, acc);
            } else {
                proof {
                    lemma_node_after_push(old_leaves, node@, level as nat, sibling(idx_k as nat));
                }
            }
            assert forall|l: nat| l < level + 1 implies #[trigger] holds_sibling(
                self.siblings@,
                new_leaves,
                k as nat,
                l,
            ) by {
                if l < level {
                    assert(holds_sibling(before, new_leaves, k as nat, l));
                }
            }
            assert forall|l: nat| level + 1 <= l < depth implies #[trigger] holds_sibling(
                self.siblings@,
                old_leaves,
                k as nat,
                l,
            ) by {
                assert(holds_sibling(before, old_leaves, k as nat, l));
            }
            if idx_n % 2 == 1 {
                assert(holds_left_sibling(
                    old_tree.frontier@,
                    old_leaves,
                    n as nat,
                    level as nat,
                ));
                proof {
                    lemma_node_after_push(old_leaves, node@, level as nat, (idx_n - 1) as nat);
                }
                acc = MerkleNode::combine(level, &self.tree.frontier[level], &acc);
            } else {
                assert(holds_empty_root(old_tree.empty_roots@, level as nat));
                proof {
                    lemma_node_beyond(new_leaves, n as nat, level as nat, (idx_n + 1) as nat);
                }
                acc = MerkleNode::combine(level, &acc, &self.tree.empty_roots[level]);
            }
            idx_n = idx_n / 2;
            idx_k = idx_k / 2;
            level = level + 1;
        }
        proof {
            assert forall|l: nat| l < depth implies #[trigger] holds_sibling(
                self.siblings@,
                new_leaves,
                k as nat,
                l,
            ) by {
                if l >= level {
                    assert(holds_sibling(self.siblings@, old_leaves, k as nat, l));
                    lemma_paths_stay_merged(n as nat, k as nat, level as nat, l);
                    lemma_node_after_push(old_leaves, node@, l, sibling(path_index(k as nat, l)));
                }
            }
        }
        let appended = self.tree.append(node);
        assert(appended is Ok);
        Ok(())
    }

    /// The authentication path of the leaf: its sibling first, then the sibling of
    /// each node above it, up to the two children of the root.
    pub fn path(&self) -> (r: Vec<MerkleNode>)
        requires
            self.wf(),
        ensures
            nodes_view(r@) == auth_path(self.leaves(), self.height(), self.leaf_position()),
    {
        proof {
            self.lemma_holds_auth_path();
        }
        copy_nodes(&self.siblings)
    }

    /// The root that the leaf and its authentication path lead to. It is the root
    /// of the tree over all the leaves that the witness has seen.
    pub fn root(&self) -> (r: MerkleNode)
        requires
            self.wf(),
        ensures
            r@ == root_from_path(
                self.leaves()[self.leaf_position() as int],
                self.leaf_position(),
                auth_path(self.leaves(), self.height(), self.leaf_position()),
            ),
            r@ == tree_root(self.leaves(), self.height()),
    {
        proof {
            self.lemma_holds_auth_path();
            self.tree.lemma_bounds();
            lemma_auth_path_leads_to_root(
                self.tree.leaves@,
                self.tree.depth as nat,
                self.position as nat,
            );
        }
        root_of_path(&self.leaf, self.position, &self.siblings)
    }
}

impl Clone for IncrementalWitness {
    /// A second witness for the same leaf, with the same leaves seen.
    fn clone(&self) -> (r: Self)
        ensures
            self.wf() ==> r.wf(),
            r.leaves() == self.leaves(),
            r.leaf_position() == self.leaf_position(),
            r.height() == self.height(),
    {
        IncrementalWitness {
            tree: self.tree.clone(),
            position: self.position,
            leaf: self.leaf,
            siblings: copy_nodes(&self.siblings),
        }
    }
}

} // verus!
