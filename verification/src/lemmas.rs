//! What follows from the soundness of a subtree: how its digest, its leaves
//! and its membership paths relate to the elements below it.

use crate::digest::DigestAlgorithm;
use crate::node::{
    child_digests, child_start, is_genuine_path, is_membership_path, is_path_shaped, path_digest,
    path_digests, subtree_child_digests, subtree_digest, MerkleNode,
};
use crate::traversal::{
    block_start, capacity, lemma_block_bounds, lemma_block_descend, lemma_block_start_leaf,
    lemma_capacity_positive, lemma_capacity_step, selector,
};
use vstd::prelude::*;

verus! {

/// Where the children of the node on the way to leaf `pos` lie: those before
/// the selected child end at or before `pos`, those after it start beyond
/// `pos`, and each lies within the block of its parent.
pub proof fn lemma_sibling_blocks(pos: nat, arity: nat, height: nat, j: int)
    requires
        arity >= 1,
        height >= 1,
        0 <= j < arity,
    ensures
        j < selector(pos, arity, (height - 1) as nat) ==> child_start(
            block_start(pos, arity, height),
            j,
            arity,
            height,
        ) + capacity(arity, (height - 1) as nat) <= pos,
        j > selector(pos, arity, (height - 1) as nat) ==> child_start(
            block_start(pos, arity, height),
            j,
            arity,
            height,
        ) > pos,
        j == selector(pos, arity, (height - 1) as nat) ==> child_start(
            block_start(pos, arity, height),
            j,
            arity,
            height,
        ) == block_start(pos, arity, (height - 1) as nat),
{
    let low = (height - 1) as nat;
    let c = capacity(arity, low) as int;
    let d = selector(pos, arity, low) as int;
    let start = block_start(pos, arity, height) as int;
    lemma_capacity_positive(arity, low);
    lemma_block_descend(pos, arity, height);
    lemma_block_bounds(pos, arity, low);
    if j < d {
        assert((j + 1) * c <= d * c) by (nonlinear_arith)
            requires
                j + 1 <= d,
                c >= 0,
        ;
        assert((j + 1) * c == j * c + c) by (nonlinear_arith);
    }
    if j > d {
        assert(j * c >= (d + 1) * c) by (nonlinear_arith)
            requires
                j >= d + 1,
                c >= 0,
        ;
        assert((d + 1) * c == d * c + c) by (nonlinear_arith);
    }
    assert(j * c >= 0) by (nonlinear_arith)
        requires
            j >= 0,
            c >= 0,
    ;
}

/// The blocks of the children of a node tile the block of the node.
pub proof fn lemma_child_block(start: nat, arity: nat, height: nat, j: int)
    requires
        arity >= 1,
        height >= 1,
        0 <= j < arity,
    ensures
        start <= child_start(start, j, arity, height),
        child_start(start, j, arity, height) + capacity(arity, (height - 1) as nat) <= start
            + capacity(arity, height),
        child_start(start, j, arity, height) == start + j * capacity(arity, (height - 1) as nat),
        j > 0 ==> child_start(start, j, arity, height) >= start + capacity(
            arity,
            (height - 1) as nat,
        ),
{
    let low = (height - 1) as nat;
    let c = capacity(arity, low) as int;
    let a = arity as int;
    lemma_capacity_positive(arity, low);
    lemma_capacity_step(arity, low);
    assert(j * c >= 0) by (nonlinear_arith)
        requires
            j >= 0,
            c >= 0,
    ;
    assert((j + 1) * c <= a * c) by (nonlinear_arith)
        requires
            j + 1 <= a,
            c >= 0,
    ;
    assert((j + 1) * c == j * c + c) by (nonlinear_arith);
    if j > 0 {
        assert(j * c >= c) by (nonlinear_arith)
            requires
                j >= 1,
                c >= 0,
        ;
    }
}

/// Where no leaf reaches, a sound subtree is an empty slot.
pub proof fn lemma_wf_beyond_is_empty<E, T, H: DigestAlgorithm<E, T>, const ARITY: usize>(
    node: MerkleNode<E, T>,
    height: nat,
    start: nat,
    n: nat,
)
    requires
        ARITY >= 1,
        node.wf::<H, ARITY>(height, start, n),
        start >= n,
    ensures
        node is Empty,
{
    lemma_capacity_positive(ARITY as nat, height);
}

/// A sound subtree that is full stays sound when leaves are appended to the
/// tree.
pub proof fn lemma_wf_full_stays<E, T, H: DigestAlgorithm<E, T>, const ARITY: usize>(
    node: MerkleNode<E, T>,
    height: nat,
    start: nat,
    n: nat,
    more: nat,
)
    requires
        ARITY >= 1,
        node.wf::<H, ARITY>(height, start, n),
        start + capacity(ARITY as nat, height) <= n,
        n <= more,
    ensures
        node.wf::<H, ARITY>(height, start, more),
    decreases height,
{
    lemma_capacity_positive(ARITY as nat, height);
    match node {
        MerkleNode::Branch { value, children } => {
            assert forall|j: int| 0 <= j < ARITY implies (#[trigger] children@[j]).wf::<H, ARITY>(
                (height - 1) as nat,
                child_start(start, j, ARITY as nat, height),
                more,
            ) by {
                lemma_child_block(start, ARITY as nat, height, j);
                lemma_wf_full_stays::<E, T, H, ARITY>(
                    children@[j],
                    (height - 1) as nat,
                    child_start(start, j, ARITY as nat, height),
                    n,
                    more,
                );
            }
        },
        _ => {},
    }
}

/// The digest of a full subtree does not change when elements are appended.
pub proof fn lemma_subtree_digest_of_prefix<E, T, H: DigestAlgorithm<E, T>, const ARITY: usize>(
    s: Seq<E>,
    t: Seq<E>,
    height: nat,
    start: nat,
)
    requires
        ARITY >= 1,
        s.is_prefix_of(t),
        start + capacity(ARITY as nat, height) <= s.len(),
    ensures
        subtree_digest::<E, T, H, ARITY>(t, height, start) == subtree_digest::<E, T, H, ARITY>(
            s,
            height,
            start,
        ),
    decreases height,
{
    lemma_capacity_positive(ARITY as nat, height);
    if height > 0 {
        let below = (height - 1) as nat;
        let of_s = subtree_child_digests::<E, T, H, ARITY>(s, height, start);
        let of_t = subtree_child_digests::<E, T, H, ARITY>(t, height, start);
        assert forall|j: int| 0 <= j < ARITY implies of_s[j] == of_t[j] by {
            lemma_child_block(start, ARITY as nat, height, j);
            lemma_subtree_digest_of_prefix::<E, T, H, ARITY>(
                s,
                t,
                below,
                child_start(start, j, ARITY as nat, height),
            );
        }
        assert(of_s =~= of_t);
    } else {
        assert(s[start as int] == t.subrange(0, s.len() as int)[start as int]);
    }
}

/// What a sound subtree keeps still agrees with the elements after more are
/// appended.
pub proof fn lemma_represents_prefix<E, T, H: DigestAlgorithm<E, T>, const ARITY: usize>(
    node: MerkleNode<E, T>,
    s: Seq<E>,
    t: Seq<E>,
    height: nat,
    start: nat,
)
    requires
        ARITY >= 1,
        node.wf::<H, ARITY>(height, start, s.len()),
        node.represents::<H, ARITY>(s, height, start),
        s.is_prefix_of(t),
    ensures
        node.represents::<H, ARITY>(t, height, start),
    decreases height,
{
    match node {
        MerkleNode::Branch { value, children } => {
            assert forall|j: int| 0 <= j < children@.len() implies (#[trigger] children@[j]).represents::<
                H,
                ARITY,
            >(t, (height - 1) as nat, child_start(start, j, ARITY as nat, height)) by {
                lemma_represents_prefix::<E, T, H, ARITY>(
                    children@[j],
                    s,
                    t,
                    (height - 1) as nat,
                    child_start(start, j, ARITY as nat, height),
                );
            }
        },
        MerkleNode::ForgottenSubtree { value } => {
            lemma_subtree_digest_of_prefix::<E, T, H, ARITY>(s, t, height, start);
        },
        _ => {},
    }
}

/// The membership path of a leaf below a sound subtree is shaped like a path,
/// and it leads to the digest of the subtree.
pub proof fn lemma_membership_path_verifies<E, T, H: DigestAlgorithm<E, T>, const ARITY: usize>(
    path: Seq<MerkleNode<E, T>>,
    node: MerkleNode<E, T>,
    height: nat,
    start: nat,
    n: nat,
    index: nat,
)
    requires
        ARITY >= 1,
        node.wf::<H, ARITY>(height, start, n),
        is_membership_path::<E, T, H, ARITY>(path, node, height, index),
    ensures
        path.len() == height + 1,
        is_path_shaped::<E, T, ARITY>(path),
        path_digest::<E, T, H, ARITY>(path, index) == node.digest::<H>(),
        node.elem_at::<ARITY>(height, index) is Some ==> path[0]->pos == index && path[0]->elem
            == node.elem_at::<ARITY>(height, index)->0,
    decreases height,
{
    if height > 0 {
        let children = node->children@;
        let d = selector(index, ARITY as nat, (height - 1) as nat) as int;
        let below = path.drop_last();
        lemma_membership_path_verifies::<E, T, H, ARITY>(
            below,
            children[d],
            (height - 1) as nat,
            child_start(start, d, ARITY as nat, height),
            n,
            index,
        );
        let kept = path.last()->children@;
        assert forall|j: int| 0 <= j < ARITY implies child_digests::<E, T, H>(kept)[j]
            == child_digests::<E, T, H>(children)[j] by {
            assert(kept[j] == children[j].summary::<H>());
        }
        assert(child_digests::<E, T, H>(kept).update(d, children[d].digest::<H>())
            =~= child_digests::<E, T, H>(children));
        assert(path[0] == below[0]);
        assert forall|l: int| 1 <= l < path.len() implies {
            &&& (#[trigger] path[l]) is Branch
            &&& path[l]->children@.len() == ARITY
        } by {
            if l < path.len() - 1 {
                assert(path[l] == below[l]);
            }
        }
        assert(node.elem_at::<ARITY>(height, index) == MerkleNode::<E, T>::elem_below::<ARITY>(
            children,
            height,
            index,
        ));
    }
}

/// A leaf that is in memory below a sound subtree is one of the leaves of the
/// tree, and it holds the element of its position in any sequence that the
/// subtree agrees with.
pub proof fn lemma_elem_at_is_element<E, T, H: DigestAlgorithm<E, T>, const ARITY: usize>(
    node: MerkleNode<E, T>,
    s: Seq<E>,
    height: nat,
    start: nat,
    n: nat,
    index: nat,
)
    requires
        ARITY >= 1,
        node.wf::<H, ARITY>(height, start, n),
        node.elem_at::<ARITY>(height, index) is Some,
    ensures
        index < n,
        node.represents::<H, ARITY>(s, height, start) ==> index < s.len() && s[index as int]
            == node.elem_at::<ARITY>(height, index)->0,
    decreases height,
{
    match node {
        MerkleNode::Branch { value, children } => {
            let d = selector(index, ARITY as nat, (height - 1) as nat) as int;
            assert(node.elem_at::<ARITY>(height, index) == MerkleNode::<E, T>::elem_below::<ARITY>(
                children@,
                height,
                index,
            ));
            lemma_elem_at_is_element::<E, T, H, ARITY>(
                children@[d],
                s,
                (height - 1) as nat,
                child_start(start, d, ARITY as nat, height),
                n,
                index,
            );
        },
        _ => {},
    }
}

/// Every node in memory on the way to a leaf has the digest that the
/// membership path of that leaf leads to at its height.
pub proof fn lemma_membership_path_agrees<E, T, H: DigestAlgorithm<E, T>, const ARITY: usize>(
    path: Seq<MerkleNode<E, T>>,
    whole: Seq<MerkleNode<E, T>>,
    node: MerkleNode<E, T>,
    height: nat,
    start: nat,
    n: nat,
    index: nat,
)
    requires
        ARITY >= 1,
        node.wf::<H, ARITY>(height, start, n),
        is_membership_path::<E, T, H, ARITY>(path, node, height, index),
        whole.len() > height,
        whole.take(height + 1 as int) == path,
    ensures
        node.agrees_with::<H, ARITY>(height, index, path_digests::<E, T, H, ARITY>(whole, index)),
    decreases height,
{
    lemma_membership_path_verifies::<E, T, H, ARITY>(path, node, height, start, n, index);
    if height > 0 {
        let children = node->children@;
        let d = selector(index, ARITY as nat, (height - 1) as nat) as int;
        assert(path.drop_last() =~= whole.take(height as int));
        lemma_membership_path_agrees::<E, T, H, ARITY>(
            path.drop_last(),
            whole,
            children[d],
            (height - 1) as nat,
            child_start(start, d, ARITY as nat, height),
            n,
            index,
        );
    }
}

/// A genuine path leads, at each of its heights, to the digest that the
/// subtree of that height on the way to its leaf has.
pub proof fn lemma_genuine_path_digest<E, T, H: DigestAlgorithm<E, T>, const ARITY: usize>(
    path: Seq<MerkleNode<E, T>>,
    s: Seq<E>,
    index: nat,
    level: nat,
)
    requires
        ARITY >= 1,
        index <= u64::MAX,
        is_genuine_path::<E, T, H, ARITY>(path, s, index),
        level < path.len(),
    ensures
        path_digest::<E, T, H, ARITY>(path.take(level + 1 as int), index) == subtree_digest::<
            E,
            T,
            H,
            ARITY,
        >(s, level, block_start(index, ARITY as nat, level)),
    decreases level,
{
    let upto = path.take(level + 1 as int);
    lemma_block_bounds(index, ARITY as nat, level);
    if level == 0 {
        lemma_block_start_leaf(index, ARITY as nat);
        assert(upto[0] == path[0]);
    } else {
        let start = block_start(index, ARITY as nat, level);
        let d = selector(index, ARITY as nat, (level - 1) as nat) as int;
        lemma_genuine_path_digest::<E, T, H, ARITY>(path, s, index, (level - 1) as nat);
        assert(upto.drop_last() =~= path.take(level as int));
        assert(upto.last() == path[level as int]);
        assert(path[level as int] is Branch);
        let recorded = child_digests::<E, T, H>(path[level as int]->children@).update(
            d,
            path_digest::<E, T, H, ARITY>(path.take(level as int), index),
        );
        let expected = subtree_child_digests::<E, T, H, ARITY>(s, level, start);
        lemma_sibling_blocks(index, ARITY as nat, level, d);
        lemma_block_descend(index, ARITY as nat, level);
        assert forall|j: int| 0 <= j < ARITY implies recorded[j] == expected[j] by {
            if j != d {
                assert(path[level as int]->children@[j].digest::<H>() == subtree_digest::<
                    E,
                    T,
                    H,
                    ARITY,
                >(s, (level - 1) as nat, child_start(start, j, ARITY as nat, level)));
            }
        }
        assert(recorded =~= expected);
    }
}

/// The membership path of a leaf below a sound subtree that agrees with the
/// elements `s`, cut off at the height of the subtree, is genuine for `s`.
pub proof fn lemma_membership_path_is_genuine<E, T, H: DigestAlgorithm<E, T>, const ARITY: usize>(
    path: Seq<MerkleNode<E, T>>,
    node: MerkleNode<E, T>,
    s: Seq<E>,
    height: nat,
    index: nat,
)
    requires
        ARITY >= 1,
        node.wf::<H, ARITY>(height, block_start(index, ARITY as nat, height), s.len()),
        node.represents::<H, ARITY>(s, height, block_start(index, ARITY as nat, height)),
        is_membership_path::<E, T, H, ARITY>(path, node, height, index),
    ensures
        is_genuine_path::<E, T, H, ARITY>(path, s, index),
    decreases height,
{
    let start = block_start(index, ARITY as nat, height);
    lemma_membership_path_verifies::<E, T, H, ARITY>(path, node, height, start, s.len(), index);
    if height == 0 {
        lemma_block_start_leaf(index, ARITY as nat);
    } else {
        let children = node->children@;
        let d = selector(index, ARITY as nat, (height - 1) as nat) as int;
        let below = path.drop_last();
        lemma_sibling_blocks(index, ARITY as nat, height, d);
        lemma_membership_path_is_genuine::<E, T, H, ARITY>(
            below,
            children[d],
            s,
            (height - 1) as nat,
            index,
        );
        assert(path[0] == below[0]);
        assert forall|l: int, j: int|
            1 <= l < path.len() && 0 <= j < ARITY && j != selector(
                index,
                ARITY as nat,
                (l - 1) as nat,
            ) implies (#[trigger] path[l]->children@[j]).digest::<H>() == subtree_digest::<
            E,
            T,
            H,
            ARITY,
        >(
            s,
            (l - 1) as nat,
            child_start(block_start(index, ARITY as nat, l as nat), j, ARITY as nat, l as nat),
        ) by {
            if l < height {
                assert(path[l] == below[l]);
            } else {
                assert(path[l] == path.last());
                assert(path[l]->children@[j] == children[j].summary::<H>());
                lemma_digest_is_subtree_digest::<E, T, H, ARITY>(
                    children[j],
                    s,
                    (height - 1) as nat,
                    child_start(start, j, ARITY as nat, height),
                );
            }
        }
    }
}

/// Whether the nodes on a way agree with some digests depends only on the
/// digests up to the height of the node at its top.
pub proof fn lemma_agrees_with_same_digests<E, T, H: DigestAlgorithm<E, T>, const ARITY: usize>(
    node: MerkleNode<E, T>,
    height: nat,
    index: nat,
    values: Seq<T>,
    others: Seq<T>,
)
    requires
        node.agrees_with::<H, ARITY>(height, index, values),
        others.len() > height,
        forall|l: int| 0 <= l <= height ==> values[l] == others[l],
    ensures
        node.agrees_with::<H, ARITY>(height, index, others),
    decreases height,
{
    match node {
        MerkleNode::Branch { value, children } => {
            let d = selector(index, ARITY as nat, (height - 1) as nat) as int;
            lemma_agrees_with_same_digests::<E, T, H, ARITY>(
                children@[d],
                (height - 1) as nat,
                index,
                values,
                others,
            );
        },
        _ => {},
    }
}

/// The nodes in memory on the way to a leaf below a sound subtree agree with
/// the digests that the subtrees on that way have in the tree over the
/// elements that the subtree agrees with.
pub proof fn lemma_agrees_with_subtree_digests<E, T, H: DigestAlgorithm<E, T>, const ARITY: usize>(
    node: MerkleNode<E, T>,
    s: Seq<E>,
    height: nat,
    index: nat,
    values: Seq<T>,
)
    requires
        ARITY >= 1,
        node.wf::<H, ARITY>(height, block_start(index, ARITY as nat, height), s.len()),
        node.represents::<H, ARITY>(s, height, block_start(index, ARITY as nat, height)),
        values.len() > height,
        forall|l: int|
            0 <= l <= height ==> #[trigger] values[l] == subtree_digest::<E, T, H, ARITY>(
                s,
                l as nat,
                block_start(index, ARITY as nat, l as nat),
            ),
    ensures
        node.agrees_with::<H, ARITY>(height, index, values),
    decreases height,
{
    let start = block_start(index, ARITY as nat, height);
    lemma_digest_is_subtree_digest::<E, T, H, ARITY>(node, s, height, start);
    assert(values[height as int] == subtree_digest::<E, T, H, ARITY>(s, height, start));
    match node {
        MerkleNode::Branch { value, children } => {
            let d = selector(index, ARITY as nat, (height - 1) as nat) as int;
            lemma_sibling_blocks(index, ARITY as nat, height, d);
            lemma_block_descend(index, ARITY as nat, height);
            lemma_agrees_with_subtree_digests::<E, T, H, ARITY>(
                children@[d],
                s,
                (height - 1) as nat,
                index,
                values,
            );
        },
        _ => {},
    }
}

/// The digest of a sound subtree is the digest of the subtree over the
/// elements that it agrees with, whatever was forgotten below it.
pub proof fn lemma_digest_is_subtree_digest<E, T, H: DigestAlgorithm<E, T>, const ARITY: usize>(
    node: MerkleNode<E, T>,
    s: Seq<E>,
    height: nat,
    start: nat,
)
    requires
        ARITY >= 1,
        node.wf::<H, ARITY>(height, start, s.len()),
        node.represents::<H, ARITY>(s, height, start),
    ensures
        node.digest::<H>() == subtree_digest::<E, T, H, ARITY>(s, height, start),
    decreases height,
{
    lemma_capacity_positive(ARITY as nat, height);
    match node {
        MerkleNode::Branch { value, children } => {
            let below = (height - 1) as nat;
            let expected = subtree_child_digests::<E, T, H, ARITY>(s, height, start);
            assert forall|j: int| 0 <= j < ARITY implies child_digests::<E, T, H>(children@)[j]
                == expected[j] by {
                lemma_digest_is_subtree_digest::<E, T, H, ARITY>(
                    children@[j],
                    s,
                    below,
                    child_start(start, j, ARITY as nat, height),
                );
            }
            assert(child_digests::<E, T, H>(children@) =~= expected);
        },
        _ => {},
    }
}

} // verus!
