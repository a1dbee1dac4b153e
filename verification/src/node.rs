//! The nodes of a tree, what it means for them to be well formed, and what they
//! say about the sequence of elements below them.

use crate::digest::DigestAlgorithm;
use crate::traversal::{block_start, capacity, selector};
use vstd::prelude::*;

verus! {

/// A node of a tree. Every node but `Empty` caches its digest in `value`.
#[derive(Debug, PartialEq, Eq)]
pub enum MerkleNode<E, T> {
    /// A slot that holds nothing yet.
    Empty,
    /// An internal node over its children, in order.
    Branch { value: T, children: Vec<MerkleNode<E, T>> },
    /// A leaf that holds the element appended at position `pos`.
    Leaf { value: T, pos: u64, elem: E },
    /// What is left of a subtree whose nodes were dropped: its digest.
    ForgottenSubtree { value: T },
}

/// The first leaf index below the `j`-th child of a node of the given height
/// whose own first leaf index is `start`.
pub open spec fn child_start(start: nat, j: int, arity: nat, height: nat) -> nat {
    (start + j * capacity(arity, (height - 1) as nat)) as nat
}

/// The last `height` selectors of `path` are those on the way from a node of
/// the given height down to leaf `index`.
pub open spec fn path_leads_to(path: Seq<usize>, index: nat, arity: nat, height: nat) -> bool {
    &&& path.len() >= height
    &&& forall|k: int|
        path.len() - height <= k < path.len() ==> #[trigger] path[k] == selector(
            index,
            arity,
            (path.len() - 1 - k) as nat,
        )
}

/// Whether a tree built over `len` elements keeps leaf `index` in memory: the
/// last leaf only where it forgets, every leaf where it does not.
pub open spec fn is_kept(index: nat, len: nat, forget: bool) -> bool {
    if forget {
        index + 1 == len
    } else {
        index < len
    }
}

/// The digests of a row of nodes.
pub open spec fn child_digests<E, T, H: DigestAlgorithm<E, T>>(
    children: Seq<MerkleNode<E, T>>,
) -> Seq<T> {
    Seq::new(children.len(), |j: int| children[j].digest::<H>())
}

/// The digest of the subtree of the given height whose first leaf index is
/// `start`, in the tree over the elements `s`: the digest of an empty slot
/// where no element reaches, the digest of a leaf at height zero, and the
/// digest of a branch over the digests of its `ARITY` subtrees above that.
pub open spec fn subtree_digest<E, T, H: DigestAlgorithm<E, T>, const ARITY: usize>(
    s: Seq<E>,
    height: nat,
    start: nat,
) -> T
    decreases height, 1nat,
{
    if start >= s.len() {
        H::empty_digest()
    } else if height == 0 {
        H::leaf_digest(start as u64, s[start as int])
    } else {
        H::branch_digest(subtree_child_digests::<E, T, H, ARITY>(s, height, start))
    }
}

/// The digests of the `ARITY` subtrees below the subtree of the given height
/// whose first leaf index is `start`, in the tree over the elements `s`.
pub open spec fn subtree_child_digests<E, T, H: DigestAlgorithm<E, T>, const ARITY: usize>(
    s: Seq<E>,
    height: nat,
    start: nat,
) -> Seq<T>
    decreases height, 0nat,
{
    Seq::new(
        ARITY as nat,
        |j: int|
            if height > 0 {
                subtree_digest::<E, T, H, ARITY>(
                    s,
                    (height - 1) as nat,
                    child_start(start, j, ARITY as nat, height),
                )
            } else {
                H::empty_digest()
            },
    )
}

/// The root digest of the tree of the given height over the elements `s`.
pub open spec fn merkle_root<E, T, H: DigestAlgorithm<E, T>, const ARITY: usize>(
    s: Seq<E>,
    height: nat,
) -> T {
    subtree_digest::<E, T, H, ARITY>(s, height, 0)
}

impl<E, T> MerkleNode<E, T> {
    /// The digest of this node.
    pub open spec fn digest<H: DigestAlgorithm<E, T>>(self) -> T {
        match self {
            MerkleNode::Empty => H::empty_digest(),
            MerkleNode::Branch { value, .. } => value,
            MerkleNode::Leaf { value, .. } => value,
            MerkleNode::ForgottenSubtree { value } => value,
        }
    }

    /// This node is a sound subtree of the given height whose first leaf index
    /// is `start`, in a tree that holds the leaves `0 .. n`:
    /// - nothing is stored where no leaf reaches, and nothing is missing where
    ///   one does;
    /// - a forgotten subtree is full;
    /// - a leaf sits at height zero and records its own position;
    /// - a branch has `ARITY` children;
    /// - every cached digest is the digest of what is below it.
    pub open spec fn wf<H: DigestAlgorithm<E, T>, const ARITY: usize>(
        self,
        height: nat,
        start: nat,
        n: nat,
    ) -> bool
        decreases height,
    {
        match self {
            MerkleNode::Empty => start >= n,
            MerkleNode::Leaf { value, pos, elem } => {
                &&& height == 0
                &&& pos == start
                &&& start < n
                &&& value == H::leaf_digest(pos, elem)
            },
            MerkleNode::ForgottenSubtree { value } => start + capacity(ARITY as nat, height) <= n,
            MerkleNode::Branch { value, children } => {
                &&& height > 0
                &&& start < n
                &&& children@.len() == ARITY
                &&& forall|j: int|
                    0 <= j < ARITY ==> (#[trigger] children@[j]).wf::<H, ARITY>(
                        (height - 1) as nat,
                        child_start(start, j, ARITY as nat, height),
                        n,
                    )
                &&& value == H::branch_digest(child_digests::<E, T, H>(children@))
            },
        }
    }

    /// What this subtree keeps agrees with the elements `s`: a leaf holds the
    /// element of its position, and a forgotten subtree holds the digest that
    /// the subtree over `s` has.
    pub open spec fn represents<H: DigestAlgorithm<E, T>, const ARITY: usize>(
        self,
        s: Seq<E>,
        height: nat,
        start: nat,
    ) -> bool
        decreases height,
    {
        match self {
            MerkleNode::Empty => true,
            MerkleNode::Leaf { value, pos, elem } => pos < s.len() && elem == s[pos as int],
            MerkleNode::ForgottenSubtree { value } => value == subtree_digest::<E, T, H, ARITY>(
                s,
                height,
                start,
            ),
            MerkleNode::Branch { value, children } => {
                &&& height > 0
                &&& forall|j: int|
                    0 <= j < children@.len() ==> (#[trigger] children@[j]).represents::<H, ARITY>(
                        s,
                        (height - 1) as nat,
                        child_start(start, j, ARITY as nat, height),
                    )
            },
        }
    }

    /// The element of leaf `index`, where the way down to it from this node, of
    /// the given height, ends in the leaf itself; `None` where it ends in an
    /// empty slot or in a forgotten subtree.
    pub open spec fn elem_at<const ARITY: usize>(self, height: nat, index: nat) -> Option<E>
        decreases height, 1nat,
    {
        match self {
            MerkleNode::Leaf { value, pos, elem } => if height == 0 && pos == index {
                Some(elem)
            } else {
                None
            },
            MerkleNode::Branch { value, children } => Self::elem_below::<ARITY>(
                children@,
                height,
                index,
            ),
            _ => None,
        }
    }

    /// The element of leaf `index` as found from a branch of the given height
    /// over `children`: what the child that `index` selects finds.
    pub open spec fn elem_below<const ARITY: usize>(
        children: Seq<MerkleNode<E, T>>,
        height: nat,
        index: nat,
    ) -> Option<E>
        decreases height, 0nat,
    {
        let d = selector(index, ARITY as nat, (height - 1) as nat) as int;
        if height > 0 && d < children.len() {
            children[d].elem_at::<ARITY>((height - 1) as nat, index)
        } else {
            None
        }
    }

    /// On the way from this node, of the given height, down to leaf `index`,
    /// every node that is in memory has the digest that `values` gives for its
    /// height.
    pub open spec fn agrees_with<H: DigestAlgorithm<E, T>, const ARITY: usize>(
        self,
        height: nat,
        index: nat,
        values: Seq<T>,
    ) -> bool
        decreases height,
    {
        &&& height < values.len()
        &&& self.digest::<H>() == values[height as int]
        &&& self matches MerkleNode::Branch { value, children } ==> {
            &&& height > 0
            &&& selector(index, ARITY as nat, (height - 1) as nat) < children@.len()
            &&& children@[selector(index, ARITY as nat, (height - 1) as nat) as int].agrees_with::<
                H,
                ARITY,
            >((height - 1) as nat, index, values)
        }
    }

    /// What is left of this node when it is forgotten.
    pub open spec fn forgotten<H: DigestAlgorithm<E, T>>(self) -> MerkleNode<E, T> {
        MerkleNode::ForgottenSubtree { value: self.digest::<H>() }
    }

    /// Two nodes are alike when they are the same variant with the same fields,
    /// and their children are alike one by one.
    pub open spec fn alike(self, other: MerkleNode<E, T>) -> bool
        decreases self,
    {
        match self {
            MerkleNode::Branch { value, children } => {
                &&& other matches MerkleNode::Branch { value: other_value, children: other_children }
                &&& value == other_value
                &&& children@.len() == other_children@.len()
                &&& forall|j: int|
                    0 <= j < children@.len() ==> (#[trigger] children@[j]).alike(other_children@[j])
            },
            _ => self == other,
        }
    }

    /// What a proof keeps of a sibling: nothing of an empty slot, the digest of
    /// anything else.
    pub open spec fn summary<H: DigestAlgorithm<E, T>>(self) -> MerkleNode<E, T> {
        match self {
            MerkleNode::Empty => MerkleNode::Empty,
            _ => MerkleNode::ForgottenSubtree { value: self.digest::<H>() },
        }
    }

    /// `self` is what a proof keeps of the branch `node`: its digest, and the
    /// summaries of its children.
    pub open spec fn is_snapshot_of<H: DigestAlgorithm<E, T>>(self, node: MerkleNode<E, T>) -> bool {
        &&& self matches MerkleNode::Branch { value, children }
        &&& node matches MerkleNode::Branch { value: node_value, children: node_children }
        &&& value == node_value
        &&& children@.len() == node_children@.len()
        &&& forall|j: int|
            0 <= j < children@.len() ==> children@[j] == (#[trigger] node_children@[j]).summary::<H>()
    }
}

impl<E: Copy, T: Copy> Clone for MerkleNode<E, T> {
    fn clone(&self) -> (copy: Self)
        ensures
            copy.alike(*self),
        decreases self,
    {
        match self {
            MerkleNode::Empty => MerkleNode::Empty,
            MerkleNode::Leaf { value, pos, elem } => MerkleNode::Leaf {
                value: *value,
                pos: *pos,
                elem: *elem,
            },
            MerkleNode::ForgottenSubtree { value } => MerkleNode::ForgottenSubtree { value: *value },
            MerkleNode::Branch { value, children } => {
                let mut copies: Vec<MerkleNode<E, T>> = Vec::new();
                let mut j: usize = 0;
                while j < children.len()
                    invariant
                        j <= children@.len(),
                        copies@.len() == j,
                        forall|k: int| 0 <= k < j ==> (#[trigger] copies@[k]).alike(children@[k]),
                        *self matches MerkleNode::Branch { children: c, .. } && c == children,
                    decreases children@.len() - j,
                {
                    let child = children[j].clone();
                    copies.push(child);
                    j = j + 1;
                }
                MerkleNode::Branch { value: *value, children: copies }
            },
        }
    }
}

/// `path` is the membership path of leaf `index` below `node`: the leaf
/// first, then a snapshot of each branch on the way up to `node`.
pub open spec fn is_membership_path<E, T, H: DigestAlgorithm<E, T>, const ARITY: usize>(
    path: Seq<MerkleNode<E, T>>,
    node: MerkleNode<E, T>,
    height: nat,
    index: nat,
) -> bool
    decreases height,
{
    if height == 0 {
        &&& node is Leaf
        &&& path == seq![node]
    } else {
        &&& node matches MerkleNode::Branch { value, children }
        &&& path.len() == height + 1
        &&& selector(index, ARITY as nat, (height - 1) as nat) < children@.len()
        &&& path.last().is_snapshot_of::<H>(node)
        &&& is_membership_path::<E, T, H, ARITY>(
            path.drop_last(),
            children@[selector(index, ARITY as nat, (height - 1) as nat) as int],
            (height - 1) as nat,
            index,
        )
    }
}

/// A sequence of nodes is shaped like a membership path: a leaf, then
/// branches of `ARITY` children each.
pub open spec fn is_path_shaped<E, T, const ARITY: usize>(path: Seq<MerkleNode<E, T>>) -> bool {
    &&& path.len() >= 1
    &&& path[0] is Leaf
    &&& forall|l: int|
        1 <= l < path.len() ==> {
            &&& (#[trigger] path[l]) is Branch
            &&& path[l]->children@.len() == ARITY
        }
}

/// The digest that a path leads to for leaf `index`: the digest of its leaf,
/// computed from the position and the element that the leaf records, then, at
/// each branch, the digest over the digests of its children, with the digest
/// from below in the place that `index` selects.
pub open spec fn path_digest<E, T, H: DigestAlgorithm<E, T>, const ARITY: usize>(
    path: Seq<MerkleNode<E, T>>,
    index: nat,
) -> T
    decreases path.len(),
{
    if path.len() <= 1 {
        H::leaf_digest(path[0]->pos, path[0]->elem)
    } else {
        H::branch_digest(
            child_digests::<E, T, H>(path.last()->children@).update(
                selector(index, ARITY as nat, (path.len() - 2) as nat) as int,
                path_digest::<E, T, H, ARITY>(path.drop_last(), index),
            ),
        )
    }
}

/// A path is genuine for leaf `index` of the tree over the elements `s`: it
/// is shaped like a path, its leaf records that position and the element of
/// that position, and its branches record, for every child beside the way to
/// the leaf, the digest that the subtree in that place has.
pub open spec fn is_genuine_path<E, T, H: DigestAlgorithm<E, T>, const ARITY: usize>(
    path: Seq<MerkleNode<E, T>>,
    s: Seq<E>,
    index: nat,
) -> bool {
    &&& is_path_shaped::<E, T, ARITY>(path)
    &&& index < s.len()
    &&& path[0]->pos == index
    &&& path[0]->elem == s[index as int]
    &&& forall|l: int, j: int|
        1 <= l < path.len() && 0 <= j < ARITY && j != selector(
            index,
            ARITY as nat,
            (l - 1) as nat,
        ) ==> (#[trigger] path[l]->children@[j]).digest::<H>() == subtree_digest::<E, T, H, ARITY>(
            s,
            (l - 1) as nat,
            child_start(block_start(index, ARITY as nat, l as nat), j, ARITY as nat, l as nat),
        )
}

/// The digests that a path leads to for leaf `index` at each of its heights,
/// the digest of its leaf first.
pub open spec fn path_digests<E, T, H: DigestAlgorithm<E, T>, const ARITY: usize>(
    path: Seq<MerkleNode<E, T>>,
    index: nat,
) -> Seq<T> {
    Seq::new(path.len(), |l: int| path_digest::<E, T, H, ARITY>(path.take(l + 1), index))
}

impl<E: Copy, T: Copy> MerkleNode<E, T> {
    /// The digest of this node.
    pub fn value<H: DigestAlgorithm<E, T>>(&self) -> (d: T)
        ensures
            d == self.digest::<H>(),
    {
        match self {
            MerkleNode::Empty => H::empty(),
            MerkleNode::Branch { value, .. } => *value,
            MerkleNode::Leaf { value, .. } => *value,
            MerkleNode::ForgottenSubtree { value } => *value,
        }
    }

    /// Tells whether this node is a forgotten subtree.
    pub fn is_forgotten(&self) -> (b: bool)
        ensures
            b == (*self is ForgottenSubtree),
    {
        match self {
            MerkleNode::ForgottenSubtree { .. } => true,
            _ => false,
        }
    }
}

} // verus!
