//! The algorithms on nodes: building a subtree, appending a leaf, looking one
//! up, forgetting it and bringing it back.

use crate::digest::DigestAlgorithm;
use crate::lemmas::{
    lemma_child_block, lemma_digest_is_subtree_digest, lemma_genuine_path_digest,
    lemma_represents_prefix, lemma_sibling_blocks, lemma_subtree_digest_of_prefix,
    lemma_wf_beyond_is_empty, lemma_wf_full_stays,
};
use crate::membership::LookupResult;
use crate::node::{
    child_digests, child_start, is_genuine_path, is_kept, is_membership_path, is_path_shaped,
    path_digest, path_digests, path_leads_to, subtree_digest, MerkleNode,
};
use crate::traversal::{
    block_start, capacity, capacity_checked, lemma_aligned_child, lemma_block_bounds,
    lemma_block_descend, lemma_block_start_leaf, lemma_block_start_of_member,
    lemma_capacity_positive, lemma_capacity_step, lemma_capacity_zero, selector,
};
use vstd::laws_eq::obeys_concrete_eq;
use vstd::prelude::*;

verus! {

impl<E: Copy, T: Copy> MerkleNode<E, T> {
    /// Appends the leaf at position `pos` below this node, which is the node
    /// of the given height on the way to that leaf in a tree that holds the
    /// leaves before `pos`. With `forget`, every subtree on the left of the way
    /// down is replaced by its digest. The digests on the way are recomputed.
    pub(crate) fn insert<H: DigestAlgorithm<E, T>, const ARITY: usize>(
        &mut self,
        height: usize,
        path: &Vec<usize>,
        pos: u64,
        elem: E,
        forget: bool,
    )
        requires
            ARITY >= 1,
            old(self).wf::<H, ARITY>(
                height as nat,
                block_start(pos as nat, ARITY as nat, height as nat),
                pos as nat,
            ),
            path_leads_to(path@, pos as nat, ARITY as nat, height as nat),
        ensures
            final(self).wf::<H, ARITY>(
                height as nat,
                block_start(pos as nat, ARITY as nat, height as nat),
                (pos + 1) as nat,
            ),
            final(self).elem_at::<ARITY>(height as nat, pos as nat) == Some(elem),
            forall|i: nat|
                i != pos ==> #[trigger] final(self).elem_at::<ARITY>(height as nat, i) == if forget {
                    None
                } else {
                    old(self).elem_at::<ARITY>(height as nat, i)
                },
            forall|s: Seq<E>|
                s.len() == pos && #[trigger] old(self).represents::<H, ARITY>(
                    s,
                    height as nat,
                    block_start(pos as nat, ARITY as nat, height as nat),
                ) ==> final(self).represents::<H, ARITY>(
                    s.push(elem),
                    height as nat,
                    block_start(pos as nat, ARITY as nat, height as nat),
                ),
        decreases height,
    {
        let ghost start = block_start(pos as nat, ARITY as nat, height as nat);
        proof {
            lemma_block_bounds(pos as nat, ARITY as nat, height as nat);
            lemma_capacity_positive(ARITY as nat, height as nat);
        }
        match self {
            MerkleNode::Empty => {
                if height == 0 {
                    proof {
                        lemma_block_start_leaf(pos as nat, ARITY as nat);
                    }
                    let value = H::digest_leaf(pos, &elem);
                    *self = MerkleNode::Leaf { value, pos, elem };
                } else {
                    let d: usize = path[path.len() - height];
                    let mut children = empty_children::<E, T>(ARITY);
                    proof {
                        lemma_block_descend(pos as nat, ARITY as nat, height as nat);
                        lemma_block_bounds(pos as nat, ARITY as nat, (height - 1) as nat);
                        lemma_sibling_blocks(pos as nat, ARITY as nat, height as nat, d as int);
                    }
                    let ghost blank = children@;
                    children[d].insert::<H, ARITY>(height - 1, path, pos, elem, forget);
                    let value = digest_branch::<E, T, H>(&children);
                    proof {
                        assert forall|i: nat| i != pos implies #[trigger] Self::elem_below::<ARITY>(
                            children@,
                            height as nat,
                            i,
                        ) == None::<E> by {
                            let j = selector(i, ARITY as nat, (height - 1) as nat) as int;
                            if j < ARITY {
                                if j == d {
                                    assert(blank[j] is Empty);
                                    assert(children@[j].elem_at::<ARITY>((height - 1) as nat, i) == if forget {
                                        None
                                    } else {
                                        blank[j].elem_at::<ARITY>((height - 1) as nat, i)
                                    });
                                } else {
                                    assert(children@[j] == blank[j]);
                                    assert(blank[j] is Empty);
                                }
                            }
                        }
                        assert forall|j: int| 0 <= j < ARITY implies (#[trigger] children@[j]).wf::<
                            H,
                            ARITY,
                        >(
                            (height - 1) as nat,
                            child_start(start, j, ARITY as nat, height as nat),
                            (pos + 1) as nat,
                        ) by {
                            lemma_sibling_blocks(pos as nat, ARITY as nat, height as nat, j);
                            lemma_child_block(start, ARITY as nat, height as nat, j);
                        }
                        assert forall|s: Seq<E>| s.len() == pos implies (forall|j: int|
                            0 <= j < children@.len() ==> (#[trigger] children@[j]).represents::<
                                H,
                                ARITY,
                            >(
                                s.push(elem),
                                (height - 1) as nat,
                                child_start(start, j, ARITY as nat, height as nat),
                            )) by {
                            assert(MerkleNode::<E, T>::Empty.represents::<H, ARITY>(
                                s,
                                (height - 1) as nat,
                                block_start(pos as nat, ARITY as nat, (height - 1) as nat),
                            ));
                        }
                    }
                    let ghost grown = children@;
                    *self = MerkleNode::Branch { value, children };
                    assert(self->children@ == grown);
                    assert forall|i: nat| i != pos implies #[trigger] self.elem_at::<ARITY>(
                        height as nat,
                        i,
                    ) == None::<E> by {
                        assert(self.elem_at::<ARITY>(height as nat, i) == Self::elem_below::<ARITY>(
                            grown,
                            height as nat,
                            i,
                        ));
                    }
                }
            },
            MerkleNode::Branch { value, children } => {
                let d: usize = path[path.len() - height];
                let ghost before = children@;
                proof {
                    lemma_block_descend(pos as nat, ARITY as nat, height as nat);
                    lemma_sibling_blocks(pos as nat, ARITY as nat, height as nat, d as int);
                }
                if forget {
                    forget_before::<E, T, H>(children, d);
                }
                let ghost mid = children@;
                children[d].insert::<H, ARITY>(height - 1, path, pos, elem, forget);
                let v = digest_branch::<E, T, H>(children);
                *value = v;
                proof {
                    assert(mid[d as int] == before[d as int]);
                    assert forall|j: int| 0 <= j < ARITY && j != d implies children@[j] == mid[j] by {}
                    assert forall|j: int| 0 <= j < d implies children@[j] == if forget {
                        before[j].forgotten::<H>()
                    } else {
                        before[j]
                    } by {}
                    assert forall|j: int| d < j < ARITY implies children@[j] == before[j] by {}
                    assert forall|j: int| 0 <= j < ARITY implies (#[trigger] children@[j]).wf::<
                        H,
                        ARITY,
                    >(
                        (height - 1) as nat,
                        child_start(start, j, ARITY as nat, height as nat),
                        (pos + 1) as nat,
                    ) by {
                        lemma_sibling_blocks(pos as nat, ARITY as nat, height as nat, j);
                        if j < d {
                            lemma_wf_full_stays::<E, T, H, ARITY>(
                                before[j],
                                (height - 1) as nat,
                                child_start(start, j, ARITY as nat, height as nat),
                                pos as nat,
                                (pos + 1) as nat,
                            );
                        } else if j > d {
                            lemma_wf_beyond_is_empty::<E, T, H, ARITY>(
                                before[j],
                                (height - 1) as nat,
                                child_start(start, j, ARITY as nat, height as nat),
                                pos as nat,
                            );
                        }
                    }
                    assert forall|i: nat| i != pos implies #[trigger] Self::elem_below::<ARITY>(
                        children@,
                        height as nat,
                        i,
                    ) == if forget {
                        None
                    } else {
                        Self::elem_below::<ARITY>(before, height as nat, i)
                    } by {
                        let j = selector(i, ARITY as nat, (height - 1) as nat) as int;
                        if j < ARITY {
                            if j == d {
                                assert(children@[j].elem_at::<ARITY>((height - 1) as nat, i) == if forget {
                                    None
                                } else {
                                    before[j].elem_at::<ARITY>((height - 1) as nat, i)
                                });
                            } else if j > d {
                                lemma_sibling_blocks(pos as nat, ARITY as nat, height as nat, j);
                                lemma_wf_beyond_is_empty::<E, T, H, ARITY>(
                                    before[j],
                                    (height - 1) as nat,
                                    child_start(start, j, ARITY as nat, height as nat),
                                    pos as nat,
                                );
                                assert(children@[j] == before[j]);
                            } else {
                                assert(children@[j] == if forget {
                                    before[j].forgotten::<H>()
                                } else {
                                    before[j]
                                });
                            }
                        }
                    }
                    assert forall|s: Seq<E>|
                        s.len() == pos && (forall|j: int|
                            0 <= j < before.len() ==> (#[trigger] before[j]).represents::<H, ARITY>(
                                s,
                                (height - 1) as nat,
                                child_start(start, j, ARITY as nat, height as nat),
                            )) implies (forall|j: int|
                        0 <= j < children@.len() ==> (#[trigger] children@[j]).represents::<H, ARITY>(
                            s.push(elem),
                            (height - 1) as nat,
                            child_start(start, j, ARITY as nat, height as nat),
                        )) by {
                        assert forall|j: int| 0 <= j < children@.len() implies (
                        #[trigger] children@[j]).represents::<H, ARITY>(
                            s.push(elem),
                            (height - 1) as nat,
                            child_start(start, j, ARITY as nat, height as nat),
                        ) by {
                            lemma_sibling_blocks(pos as nat, ARITY as nat, height as nat, j);
                            assert(before[j].represents::<H, ARITY>(
                                s,
                                (height - 1) as nat,
                                child_start(start, j, ARITY as nat, height as nat),
                            ));
                            if j < d {
                                lemma_represents_prefix::<E, T, H, ARITY>(
                                    before[j],
                                    s,
                                    s.push(elem),
                                    (height - 1) as nat,
                                    child_start(start, j, ARITY as nat, height as nat),
                                );
                                lemma_digest_is_subtree_digest::<E, T, H, ARITY>(
                                    before[j],
                                    s,
                                    (height - 1) as nat,
                                    child_start(start, j, ARITY as nat, height as nat),
                                );
                                lemma_subtree_digest_of_prefix::<E, T, H, ARITY>(
                                    s,
                                    s.push(elem),
                                    (height - 1) as nat,
                                    child_start(start, j, ARITY as nat, height as nat),
                                );
                            } else if j > d {
                                lemma_wf_beyond_is_empty::<E, T, H, ARITY>(
                                    before[j],
                                    (height - 1) as nat,
                                    child_start(start, j, ARITY as nat, height as nat),
                                    pos as nat,
                                );
                            }
                        }
                    }
                }
                let ghost after = children@;
                assert forall|i: nat| i != pos implies #[trigger] self.elem_at::<ARITY>(
                    height as nat,
                    i,
                ) == if forget {
                    None
                } else {
                    old(self).elem_at::<ARITY>(height as nat, i)
                } by {
                    assert(self.elem_at::<ARITY>(height as nat, i) == Self::elem_below::<ARITY>(
                        after,
                        height as nat,
                        i,
                    ));
                    assert(old(self).elem_at::<ARITY>(height as nat, i) == Self::elem_below::<ARITY>(
                        before,
                        height as nat,
                        i,
                    ));
                }
            },
            _ => {
                // Neither a leaf nor a forgotten subtree stands where the next
                // leaf goes.
                proof {
                    lemma_block_start_leaf(pos as nat, ARITY as nat);
                }
            },
        }
    }

    /// Looks up the leaf at position `pos` below this node, which is the node
    /// of the given height on the way to that leaf in a tree that holds the
    /// leaves before `n`. Where the leaf is in memory, the result holds its
    /// element and the nodes of a membership proof for it.
    pub(crate) fn lookup<H: DigestAlgorithm<E, T>, const ARITY: usize>(
        &self,
        height: usize,
        path: &Vec<usize>,
        pos: u64,
        Ghost(n): Ghost<nat>,
    ) -> (r: LookupResult<&E, Vec<MerkleNode<E, T>>, ()>)
        requires
            ARITY >= 1,
            self.wf::<H, ARITY>(
                height as nat,
                block_start(pos as nat, ARITY as nat, height as nat),
                n,
            ),
            pos < n,
            path_leads_to(path@, pos as nat, ARITY as nat, height as nat),
        ensures
            match self.elem_at::<ARITY>(height as nat, pos as nat) {
                Some(e) => {
                    &&& r matches LookupResult::Found(found, nodes)
                    &&& *found == e
                    &&& nodes@.len() == height + 1
                    &&& is_membership_path::<E, T, H, ARITY>(nodes@, *self, height as nat, pos as nat)
                },
                None => r is NotInMemory,
            },
        decreases height,
    {
        proof {
            lemma_block_bounds(pos as nat, ARITY as nat, height as nat);
            lemma_capacity_positive(ARITY as nat, height as nat);
            lemma_block_start_leaf(pos as nat, ARITY as nat);
        }
        match self {
            MerkleNode::Leaf { value, pos: leaf_pos, elem } => {
                let mut nodes: Vec<MerkleNode<E, T>> = Vec::new();
                nodes.push(MerkleNode::Leaf { value: *value, pos: *leaf_pos, elem: *elem });
                assert(nodes@ =~= seq![*self]);
                LookupResult::Found(elem, nodes)
            },
            MerkleNode::Branch { value, children } => {
                let d: usize = path[path.len() - height];
                proof {
                    lemma_block_descend(pos as nat, ARITY as nat, height as nat);
                    lemma_sibling_blocks(pos as nat, ARITY as nat, height as nat, d as int);
                    assert(self.elem_at::<ARITY>(height as nat, pos as nat) == Self::elem_below::<ARITY>(
                        children@,
                        height as nat,
                        pos as nat,
                    ));
                }
                match children[d].lookup::<H, ARITY>(height - 1, path, pos, Ghost(n)) {
                    LookupResult::Found(found, mut nodes) => {
                        let ghost below = nodes@;
                        let kept = summaries::<E, T, H>(children);
                        nodes.push(MerkleNode::Branch { value: *value, children: kept });
                        assert(nodes@.drop_last() =~= below);
                        LookupResult::Found(found, nodes)
                    },
                    _ => LookupResult::NotInMemory,
                }
            },
            _ => LookupResult::NotInMemory,
        }
    }

    /// Tells whether the leaf at position `pos` is in memory below this node,
    /// which is the node of the given height on the way to that leaf.
    pub(crate) fn holds<const ARITY: usize>(&self, height: usize, path: &Vec<usize>, pos: u64) -> (b:
        bool)
        requires
            path_leads_to(path@, pos as nat, ARITY as nat, height as nat),
        ensures
            b == self.elem_at::<ARITY>(height as nat, pos as nat) is Some,
        decreases height,
    {
        match self {
            MerkleNode::Leaf { value, pos: leaf_pos, elem } => height == 0 && *leaf_pos == pos,
            MerkleNode::Branch { value, children } => {
                if height == 0 {
                    return false;
                }
                let d: usize = path[path.len() - height];
                assert(self.elem_at::<ARITY>(height as nat, pos as nat) == Self::elem_below::<ARITY>(
                    children@,
                    height as nat,
                    pos as nat,
                ));
                if d < children.len() {
                    children[d].holds::<ARITY>(height - 1, path, pos)
                } else {
                    false
                }
            },
            _ => false,
        }
    }

    /// Forgets the leaf at position `pos`, which is in memory below this node,
    /// the node of the given height on the way to that leaf in a tree that
    /// holds the leaves before `n`. A branch whose children are all forgotten
    /// is forgotten too. No digest changes. The result holds the element and
    /// the nodes of a membership proof for it.
    pub(crate) fn forget<H: DigestAlgorithm<E, T>, const ARITY: usize>(
        &mut self,
        height: usize,
        path: &Vec<usize>,
        pos: u64,
        Ghost(n): Ghost<nat>,
    ) -> (r: LookupResult<E, Vec<MerkleNode<E, T>>, ()>)
        requires
            ARITY >= 1,
            old(self).wf::<H, ARITY>(
                height as nat,
                block_start(pos as nat, ARITY as nat, height as nat),
                n,
            ),
            pos < n,
            path_leads_to(path@, pos as nat, ARITY as nat, height as nat),
            old(self).elem_at::<ARITY>(height as nat, pos as nat) is Some,
        ensures
            final(self).wf::<H, ARITY>(
                height as nat,
                block_start(pos as nat, ARITY as nat, height as nat),
                n,
            ),
            final(self).digest::<H>() == old(self).digest::<H>(),
            !(*final(self) is Empty),
            final(self).elem_at::<ARITY>(height as nat, pos as nat) is None,
            forall|i: nat|
                i != pos ==> #[trigger] final(self).elem_at::<ARITY>(height as nat, i) == old(
                    self,
                ).elem_at::<ARITY>(height as nat, i),
            forall|s: Seq<E>|
                s.len() == n && #[trigger] old(self).represents::<H, ARITY>(
                    s,
                    height as nat,
                    block_start(pos as nat, ARITY as nat, height as nat),
                ) ==> final(self).represents::<H, ARITY>(
                    s,
                    height as nat,
                    block_start(pos as nat, ARITY as nat, height as nat),
                ),
            r matches LookupResult::Found(found, nodes) && Some(found) == old(self).elem_at::<ARITY>(
                height as nat,
                pos as nat,
            ) && nodes@.len() == height + 1 && is_membership_path::<E, T, H, ARITY>(
                nodes@,
                *old(self),
                height as nat,
                pos as nat,
            ),
            forall|index: nat, values: Seq<T>| #[trigger]
                old(self).agrees_with::<H, ARITY>(height as nat, index, values)
                    ==> final(self).agrees_with::<H, ARITY>(height as nat, index, values),
        decreases height,
    {
        let ghost start = block_start(pos as nat, ARITY as nat, height as nat);
        proof {
            lemma_block_bounds(pos as nat, ARITY as nat, height as nat);
            lemma_capacity_positive(ARITY as nat, height as nat);
            lemma_block_start_leaf(pos as nat, ARITY as nat);
            lemma_capacity_zero(ARITY as nat);
        }
        match self {
            MerkleNode::Leaf { value, pos: leaf_pos, elem } => {
                let found: E = *elem;
                let digest: T = *value;
                let mut nodes: Vec<MerkleNode<E, T>> = Vec::new();
                nodes.push(MerkleNode::Leaf { value: *value, pos: *leaf_pos, elem: *elem });
                assert(nodes@ =~= seq![*old(self)]);
                *self = MerkleNode::ForgottenSubtree { value: digest };
                LookupResult::Found(found, nodes)
            },
            MerkleNode::Branch { value, children } => {
                let d: usize = path[path.len() - height];
                let ghost before = children@;
                proof {
                    lemma_block_descend(pos as nat, ARITY as nat, height as nat);
                    lemma_sibling_blocks(pos as nat, ARITY as nat, height as nat, d as int);
                    assert(old(self).elem_at::<ARITY>(height as nat, pos as nat)
                        == Self::elem_below::<ARITY>(before, height as nat, pos as nat));
                }
                let (found, mut nodes) = match children[d].forget::<H, ARITY>(
                    height - 1,
                    path,
                    pos,
                    Ghost(n),
                ) {
                    LookupResult::Found(found, nodes) => (found, nodes),
                    _ => {
                        return LookupResult::NotInMemory;
                    },
                };
                let ghost below = nodes@;
                let ghost after = children@;
                let kept = summaries::<E, T, H>(children);
                let digest: T = *value;
                nodes.push(MerkleNode::Branch { value: digest, children: kept });
                let collapse: bool = all_forgotten(children);
                proof {
                    assert(nodes@.drop_last() =~= below);
                    assert forall|j: int| 0 <= j < ARITY implies after[j].digest::<H>()
                        == before[j].digest::<H>() && after[j].summary::<H>() == before[j].summary::<
                        H,
                    >() by {
                        if j != d {
                            assert(after[j] == before[j]);
                        }
                    }
                    assert(child_digests::<E, T, H>(after) =~= child_digests::<E, T, H>(before));
                    assert forall|j: int| 0 <= j < ARITY implies (#[trigger] after[j]).wf::<H, ARITY>(
                        (height - 1) as nat,
                        child_start(start, j, ARITY as nat, height as nat),
                        n,
                    ) by {
                        if j != d {
                            assert(after[j] == before[j]);
                        }
                    }
                    assert forall|i: nat| i != pos implies #[trigger] Self::elem_below::<ARITY>(
                        after,
                        height as nat,
                        i,
                    ) == Self::elem_below::<ARITY>(before, height as nat, i) by {
                        let j = selector(i, ARITY as nat, (height - 1) as nat) as int;
                        if j < ARITY {
                            if j != d {
                                assert(after[j] == before[j]);
                            } else {
                                assert(after[j].elem_at::<ARITY>((height - 1) as nat, i)
                                    == before[j].elem_at::<ARITY>((height - 1) as nat, i));
                            }
                        }
                    }
                    assert forall|s: Seq<E>|
                        s.len() == n && (forall|j: int|
                            0 <= j < before.len() ==> (#[trigger] before[j]).represents::<H, ARITY>(
                                s,
                                (height - 1) as nat,
                                child_start(start, j, ARITY as nat, height as nat),
                            )) implies (forall|j: int|
                        0 <= j < after.len() ==> (#[trigger] after[j]).represents::<H, ARITY>(
                            s,
                            (height - 1) as nat,
                            child_start(start, j, ARITY as nat, height as nat),
                        )) by {
                        assert forall|j: int| 0 <= j < after.len() implies (#[trigger] after[j]).represents::<
                            H,
                            ARITY,
                        >(s, (height - 1) as nat, child_start(start, j, ARITY as nat, height as nat)) by {
                            assert(before[j].represents::<H, ARITY>(
                                s,
                                (height - 1) as nat,
                                child_start(start, j, ARITY as nat, height as nat),
                            ));
                            if j != d {
                                assert(after[j] == before[j]);
                            }
                        }
                    }
                }
                let ghost kept_whole = *self;
                assert(kept_whole.wf::<H, ARITY>(height as nat, start, n));
                assert forall|i: nat| i != pos implies #[trigger] kept_whole.elem_at::<ARITY>(
                    height as nat,
                    i,
                ) == old(self).elem_at::<ARITY>(height as nat, i) by {
                    assert(kept_whole.elem_at::<ARITY>(height as nat, i) == Self::elem_below::<ARITY>(
                        after,
                        height as nat,
                        i,
                    ));
                    assert(old(self).elem_at::<ARITY>(height as nat, i) == Self::elem_below::<ARITY>(
                        before,
                        height as nat,
                        i,
                    ));
                }
                assert(kept_whole.elem_at::<ARITY>(height as nat, pos as nat) == Self::elem_below::<
                    ARITY,
                >(after, height as nat, pos as nat));
                assert forall|s: Seq<E>|
                    s.len() == n && #[trigger] old(self).represents::<H, ARITY>(
                        s,
                        height as nat,
                        start,
                    ) implies kept_whole.represents::<H, ARITY>(s, height as nat, start) by {
                    assert forall|j: int| 0 <= j < before.len() implies (#[trigger] before[j]).represents::<
                        H,
                        ARITY,
                    >(s, (height - 1) as nat, child_start(start, j, ARITY as nat, height as nat)) by {}
                }
                assert forall|index: nat, values: Seq<T>| #[trigger]
                    old(self).agrees_with::<H, ARITY>(
                        height as nat,
                        index,
                        values,
                    ) implies kept_whole.agrees_with::<H, ARITY>(height as nat, index, values) by {
                    let j = selector(index, ARITY as nat, (height - 1) as nat) as int;
                    if j != d {
                        assert(after[j] == before[j]);
                    } else {
                        assert(before[j].agrees_with::<H, ARITY>((height - 1) as nat, index, values));
                    }
                }
                if collapse {
                    proof {
                        assert forall|i: nat| #[trigger]
                            kept_whole.elem_at::<ARITY>(height as nat, i) is None by {
                            assert(kept_whole.elem_at::<ARITY>(height as nat, i)
                                == Self::elem_below::<ARITY>(after, height as nat, i));
                            let j = selector(i, ARITY as nat, (height - 1) as nat) as int;
                            if j < ARITY {
                                assert(after[j] is ForgottenSubtree);
                            }
                        }
                        assert forall|i: nat| i != pos implies #[trigger] old(self).elem_at::<ARITY>(
                            height as nat,
                            i,
                        ) is None by {
                            assert(kept_whole.elem_at::<ARITY>(height as nat, i) is None);
                        }
                        lemma_child_block(start, ARITY as nat, height as nat, ARITY - 1);
                        lemma_capacity_step(ARITY as nat, (height - 1) as nat);
                        assert(after[ARITY - 1].wf::<H, ARITY>(
                            (height - 1) as nat,
                            child_start(start, ARITY - 1, ARITY as nat, height as nat),
                            n,
                        ));
                        assert((ARITY - 1) * capacity(ARITY as nat, (height - 1) as nat) + capacity(
                            ARITY as nat,
                            (height - 1) as nat,
                        ) == ARITY * capacity(ARITY as nat, (height - 1) as nat)) by (nonlinear_arith);
                        assert forall|s: Seq<E>|
                            s.len() == n && #[trigger] kept_whole.represents::<H, ARITY>(
                                s,
                                height as nat,
                                start,
                            ) implies digest == subtree_digest::<E, T, H, ARITY>(
                            s,
                            height as nat,
                            start,
                        ) by {
                            lemma_digest_is_subtree_digest::<E, T, H, ARITY>(
                                kept_whole,
                                s,
                                height as nat,
                                start,
                            );
                        }
                    }
                    *self = MerkleNode::ForgottenSubtree { value: digest };
                }
                LookupResult::Found(found, nodes)
            },
            _ => LookupResult::NotInMemory,
        }
    }

    /// Brings the leaf at position `pos` back into memory below this node, the
    /// node of the given height on the way to that leaf in a tree that holds
    /// the leaves before `n`. Where the way is forgotten, it is rebuilt from
    /// the digests of the siblings that `nodes` records. No digest changes. A
    /// leaf that is in memory stays as it is.
    pub(crate) fn remember<H: DigestAlgorithm<E, T>, const ARITY: usize>(
        &mut self,
        height: usize,
        path: &Vec<usize>,
        pos: u64,
        elem: E,
        nodes: &Vec<MerkleNode<E, T>>,
        values: &Vec<T>,
        Ghost(n): Ghost<nat>,
    )
        requires
            ARITY >= 1,
            old(self).wf::<H, ARITY>(
                height as nat,
                block_start(pos as nat, ARITY as nat, height as nat),
                n,
            ),
            pos < n,
            path_leads_to(path@, pos as nat, ARITY as nat, height as nat),
            is_path_shaped::<E, T, ARITY>(nodes@),
            nodes@.len() > height,
            values@ == path_digests::<E, T, H, ARITY>(nodes@, pos as nat),
            values@[0] == H::leaf_digest(pos, elem),
            old(self).agrees_with::<H, ARITY>(height as nat, pos as nat, values@),
        ensures
            final(self).wf::<H, ARITY>(
                height as nat,
                block_start(pos as nat, ARITY as nat, height as nat),
                n,
            ),
            final(self).digest::<H>() == old(self).digest::<H>(),
            final(self).elem_at::<ARITY>(height as nat, pos as nat) == match old(self).elem_at::<
                ARITY,
            >(height as nat, pos as nat) {
                Some(e) => Some(e),
                None => Some(elem),
            },
            forall|i: nat|
                i != pos ==> #[trigger] final(self).elem_at::<ARITY>(height as nat, i) == old(
                    self,
                ).elem_at::<ARITY>(height as nat, i),
            forall|s: Seq<E>|
                s.len() == n && #[trigger] old(self).represents::<H, ARITY>(
                    s,
                    height as nat,
                    block_start(pos as nat, ARITY as nat, height as nat),
                ) && is_genuine_path::<E, T, H, ARITY>(nodes@, s, pos as nat) && s[pos as int] == elem
                    ==> final(self).represents::<H, ARITY>(
                    s,
                    height as nat,
                    block_start(pos as nat, ARITY as nat, height as nat),
                ),
        decreases height,
    {
        let ghost start = block_start(pos as nat, ARITY as nat, height as nat);
        proof {
            lemma_block_bounds(pos as nat, ARITY as nat, height as nat);
            lemma_capacity_positive(ARITY as nat, height as nat);
            lemma_block_start_leaf(pos as nat, ARITY as nat);
            lemma_capacity_zero(ARITY as nat);
        }
        match self {
            MerkleNode::Branch { value, children } => {
                let d: usize = path[path.len() - height];
                let ghost before = children@;
                proof {
                    lemma_block_descend(pos as nat, ARITY as nat, height as nat);
                    lemma_sibling_blocks(pos as nat, ARITY as nat, height as nat, d as int);
                    assert(old(self).elem_at::<ARITY>(height as nat, pos as nat)
                        == Self::elem_below::<ARITY>(before, height as nat, pos as nat));
                }
                children[d].remember::<H, ARITY>(height - 1, path, pos, elem, nodes, values, Ghost(n));
                let ghost after = children@;
                proof {
                    assert forall|s: Seq<E>|
                        s.len() == n && (forall|j: int|
                            0 <= j < before.len() ==> (#[trigger] before[j]).represents::<H, ARITY>(
                                s,
                                (height - 1) as nat,
                                child_start(start, j, ARITY as nat, height as nat),
                            )) && is_genuine_path::<E, T, H, ARITY>(nodes@, s, pos as nat) && s[pos as int]
                            == elem implies (forall|j: int|
                        0 <= j < after.len() ==> (#[trigger] after[j]).represents::<H, ARITY>(
                            s,
                            (height - 1) as nat,
                            child_start(start, j, ARITY as nat, height as nat),
                        )) by {
                        assert forall|j: int| 0 <= j < after.len() implies (#[trigger] after[j]).represents::<
                            H,
                            ARITY,
                        >(s, (height - 1) as nat, child_start(start, j, ARITY as nat, height as nat)) by {
                            assert(before[j].represents::<H, ARITY>(
                                s,
                                (height - 1) as nat,
                                child_start(start, j, ARITY as nat, height as nat),
                            ));
                            if j != d {
                                assert(after[j] == before[j]);
                            }
                        }
                    }
                    assert forall|j: int| 0 <= j < ARITY implies after[j].digest::<H>()
                        == before[j].digest::<H>() by {
                        if j != d {
                            assert(after[j] == before[j]);
                        }
                    }
                    assert(child_digests::<E, T, H>(after) =~= child_digests::<E, T, H>(before));
                    assert forall|j: int| 0 <= j < ARITY implies (#[trigger] after[j]).wf::<H, ARITY>(
                        (height - 1) as nat,
                        child_start(start, j, ARITY as nat, height as nat),
                        n,
                    ) by {
                        if j != d {
                            assert(after[j] == before[j]);
                        }
                    }
                }
                assert(self.elem_at::<ARITY>(height as nat, pos as nat) == Self::elem_below::<ARITY>(
                    after,
                    height as nat,
                    pos as nat,
                ));
                assert forall|i: nat| i != pos implies #[trigger] self.elem_at::<ARITY>(
                    height as nat,
                    i,
                ) == old(self).elem_at::<ARITY>(height as nat, i) by {
                    assert(self.elem_at::<ARITY>(height as nat, i) == Self::elem_below::<ARITY>(
                        after,
                        height as nat,
                        i,
                    ));
                    assert(old(self).elem_at::<ARITY>(height as nat, i) == Self::elem_below::<ARITY>(
                        before,
                        height as nat,
                        i,
                    ));
                    let j = selector(i, ARITY as nat, (height - 1) as nat) as int;
                    if j < ARITY {
                        if j != d {
                            assert(after[j] == before[j]);
                        } else {
                            assert(after[j].elem_at::<ARITY>((height - 1) as nat, i)
                                == before[j].elem_at::<ARITY>((height - 1) as nat, i));
                        }
                    }
                }
            },
            MerkleNode::ForgottenSubtree { value } => {
                let digest: T = *value;
                if height == 0 {
                    *self = MerkleNode::Leaf { value: digest, pos, elem };
                } else {
                    let d: usize = path[path.len() - height];
                    proof {
                        lemma_block_descend(pos as nat, ARITY as nat, height as nat);
                        lemma_sibling_blocks(pos as nat, ARITY as nat, height as nat, d as int);
                        assert(nodes@.take(height + 1).drop_last() =~= nodes@.take(height as int));
                        assert(nodes@.take(height + 1).last() == nodes@[height as int]);
                        assert(values@[height as int] == path_digest::<E, T, H, ARITY>(
                            nodes@.take(height + 1),
                            pos as nat,
                        ));
                        assert(values@[height - 1] == path_digest::<E, T, H, ARITY>(
                            nodes@.take(height - 1 + 1),
                            pos as nat,
                        ));
                    }
                    match &nodes[height] {
                        MerkleNode::Branch { value: recorded, children: siblings } => {
                            let mut children = forgotten_row::<E, T, H>(siblings);
                            assert(nodes@[height as int] is Branch);
                            assert(siblings@.len() == ARITY);
                            children[d] = MerkleNode::ForgottenSubtree { value: values[height - 1] };
                            let ghost row = children@;
                            proof {
                                lemma_child_block(start, ARITY as nat, height as nat, d as int);
                            }
                            children[d].remember::<H, ARITY>(
                                height - 1,
                                path,
                                pos,
                                elem,
                                nodes,
                                values,
                                Ghost(n),
                            );
                            let ghost after = children@;
                            proof {
                                assert(child_digests::<E, T, H>(after) =~= child_digests::<E, T, H>(
                                    siblings@,
                                ).update(d as int, values@[height - 1]));
                                assert forall|j: int| 0 <= j < ARITY implies (#[trigger] after[j]).wf::<
                                    H,
                                    ARITY,
                                >(
                                    (height - 1) as nat,
                                    child_start(start, j, ARITY as nat, height as nat),
                                    n,
                                ) by {
                                    lemma_child_block(start, ARITY as nat, height as nat, j);
                                    lemma_sibling_blocks(pos as nat, ARITY as nat, height as nat, j);
                                    if j != d {
                                        assert(after[j] == row[j]);
                                        assert(row[j] == siblings@[j].forgotten::<H>());
                                    }
                                }
                                assert forall|i: nat| i != pos implies #[trigger] Self::elem_below::<
                                    ARITY,
                                >(after, height as nat, i) is None by {
                                    let j = selector(i, ARITY as nat, (height - 1) as nat) as int;
                                    if j < ARITY {
                                        if j != d {
                                            assert(after[j] == row[j]);
                                            assert(row[j] == siblings@[j].forgotten::<H>());
                                        } else {
                                            assert(after[j].elem_at::<ARITY>((height - 1) as nat, i)
                                                == row[j].elem_at::<ARITY>((height - 1) as nat, i));
                                        }
                                    }
                                }
                            }
                            proof {
                                assert forall|s: Seq<E>|
                                    s.len() == n && is_genuine_path::<E, T, H, ARITY>(
                                        nodes@,
                                        s,
                                        pos as nat,
                                    ) && s[pos as int] == elem implies (forall|j: int|
                                    0 <= j < after.len() ==> (#[trigger] after[j]).represents::<H, ARITY>(
                                        s,
                                        (height - 1) as nat,
                                        child_start(start, j, ARITY as nat, height as nat),
                                    )) by {
                                    lemma_genuine_path_digest::<E, T, H, ARITY>(
                                        nodes@,
                                        s,
                                        pos as nat,
                                        (height - 1) as nat,
                                    );
                                    assert(row[d as int].represents::<H, ARITY>(
                                        s,
                                        (height - 1) as nat,
                                        block_start(pos as nat, ARITY as nat, (height - 1) as nat),
                                    ));
                                    assert forall|j: int| 0 <= j < after.len() implies (
                                    #[trigger] after[j]).represents::<H, ARITY>(
                                        s,
                                        (height - 1) as nat,
                                        child_start(start, j, ARITY as nat, height as nat),
                                    ) by {
                                        if j != d {
                                            assert(after[j] == row[j]);
                                            assert(row[j] == siblings@[j].forgotten::<H>());
                                            assert(siblings@[j] == nodes@[height as int]->children@[j]);
                                        }
                                    }
                                }
                            }
                            *self = MerkleNode::Branch { value: digest, children };
                            assert(self.elem_at::<ARITY>(height as nat, pos as nat)
                                == Self::elem_below::<ARITY>(after, height as nat, pos as nat));
                            assert forall|i: nat| i != pos implies #[trigger] self.elem_at::<ARITY>(
                                height as nat,
                                i,
                            ) is None by {
                                assert(self.elem_at::<ARITY>(height as nat, i) == Self::elem_below::<
                                    ARITY,
                                >(after, height as nat, i));
                            }
                        },
                        _ => {},
                    }
                }
            },
            _ => {},
        }
    }

    /// Builds the subtree of the given height whose first leaf index is
    /// `start`, in the tree over the given elements: the leaves in input order
    /// from the left, empty slots where the elements end, and the digest of
    /// each branch from the digests below it. With `forget`, only the last
    /// leaf and the branches above it stay in memory, and every subtree
    /// before them is replaced by its digest.
    pub(crate) fn build<H: DigestAlgorithm<E, T>, const ARITY: usize>(
        elems: &[E],
        height: usize,
        start: u64,
        forget: bool,
    ) -> (node: MerkleNode<E, T>)
        requires
            ARITY >= 1,
            start == block_start(start as nat, ARITY as nat, height as nat),
        ensures
            node.wf::<H, ARITY>(height as nat, start as nat, elems@.len()),
            node.represents::<H, ARITY>(elems@, height as nat, start as nat),
            forall|i: nat|
                #[trigger] node.elem_at::<ARITY>(height as nat, i) == if start <= i < start + capacity(
                    ARITY as nat,
                    height as nat,
                ) && is_kept(i, elems@.len(), forget) {
                    Some(elems@[i as int])
                } else {
                    None
                },
        decreases height,
    {
        let len: usize = elems.len();
        if start >= len as u64 {
            return MerkleNode::Empty;
        }
        proof {
            lemma_capacity_positive(ARITY as nat, height as nat);
            lemma_capacity_zero(ARITY as nat);
        }
        if height == 0 {
            let elem: E = elems[start as usize];
            let value: T = H::digest_leaf(start, &elem);
            if forget && start + 1 < len as u64 {
                return MerkleNode::ForgottenSubtree { value };
            }
            return MerkleNode::Leaf { value, pos: start, elem };
        }
        let step: Option<u64> = capacity_checked(ARITY, height - 1);
        let ghost c = capacity(ARITY as nat, (height - 1) as nat) as int;
        let mut children: Vec<MerkleNode<E, T>> = Vec::new();
        let mut j: usize = 0;
        while j < ARITY
            invariant
                ARITY >= 1,
                height > 0,
                j <= ARITY,
                len == elems@.len(),
                start < len,
                start == block_start(start as nat, ARITY as nat, height as nat),
                c == capacity(ARITY as nat, (height - 1) as nat),
                match step {
                    Some(x) => x == c,
                    None => c > u64::MAX,
                },
                children@.len() == j,
                forall|k: int|
                    0 <= k < j ==> (#[trigger] children@[k]).wf::<H, ARITY>(
                        (height - 1) as nat,
                        child_start(start as nat, k, ARITY as nat, height as nat),
                        elems@.len(),
                    ),
                forall|k: int|
                    0 <= k < j ==> (#[trigger] children@[k]).represents::<H, ARITY>(
                        elems@,
                        (height - 1) as nat,
                        child_start(start as nat, k, ARITY as nat, height as nat),
                    ),
                forall|k: int, i: nat|
                    0 <= k < j ==> #[trigger] children@[k].elem_at::<ARITY>((height - 1) as nat, i)
                        == if child_start(start as nat, k, ARITY as nat, height as nat) <= i
                        < child_start(start as nat, k, ARITY as nat, height as nat) + c && is_kept(
                        i,
                        elems@.len(),
                        forget,
                    ) {
                        Some(elems@[i as int])
                    } else {
                        None
                    },
            decreases ARITY - j,
        {
            let offset: Option<u64> = match step {
                Some(x) => (j as u64).checked_mul(x),
                None => if j == 0 {
                    Some(0)
                } else {
                    None
                },
            };
            let below: Option<u64> = match offset {
                Some(o) => start.checked_add(o),
                None => None,
            };
            proof {
                lemma_capacity_positive(ARITY as nat, (height - 1) as nat);
                lemma_aligned_child(start as nat, ARITY as nat, height as nat, j as int);
                if j > 0 {
                    assert(j * c >= c) by (nonlinear_arith)
                        requires
                            j >= 1,
                            c >= 0,
                    ;
                }
                assert(j * c >= 0) by (nonlinear_arith)
                    requires
                        j >= 0,
                        c >= 0,
                ;
                if j == 0 {
                    assert(j * c == 0) by (nonlinear_arith)
                        requires
                            j == 0,
                    ;
                }
                if let Some(x) = step {
                    assert((j as u64) * x == j * c) by (nonlinear_arith)
                        requires
                            x == c,
                            j as u64 == j,
                    ;
                }
                let target = child_start(start as nat, j as int, ARITY as nat, height as nat);
                assert(target == start + j * c);
                assert(match offset {
                    Some(o) => o == j * c,
                    None => j * c > u64::MAX,
                });
                assert(match below {
                    Some(x) => x == target,
                    None => target > u64::MAX,
                });
            }
            let child: MerkleNode<E, T> = match below {
                Some(b) => Self::build::<H, ARITY>(elems, height - 1, b, forget),
                None => MerkleNode::Empty,
            };
            children.push(child);
            j = j + 1;
        }
        let value: T = digest_branch::<E, T, H>(&children);
        let whole: bool = forget && match capacity_checked(ARITY, height) {
            Some(x) => match start.checked_add(x) {
                Some(end) => end < len as u64,
                None => false,
            },
            None => false,
        };
        let ghost grown = MerkleNode::Branch { value, children };
        proof {
            assert forall|i: nat| #[trigger]
                grown.elem_at::<ARITY>(height as nat, i) == if start <= i < start + capacity(
                    ARITY as nat,
                    height as nat,
                ) && is_kept(i, elems@.len(), forget) {
                    Some(elems@[i as int])
                } else {
                    None
                } by {
                let d = selector(i, ARITY as nat, (height - 1) as nat) as int;
                vstd::arithmetic::div_mod::lemma_mod_bound(i as int / c, ARITY as int);
                assert(grown.elem_at::<ARITY>(height as nat, i) == Self::elem_below::<ARITY>(
                    children@,
                    height as nat,
                    i,
                ));
                assert(Self::elem_below::<ARITY>(children@, height as nat, i) == children@[d].elem_at::<
                    ARITY,
                >((height - 1) as nat, i));
                lemma_child_block(start as nat, ARITY as nat, height as nat, d);
                if start <= i < start + capacity(ARITY as nat, height as nat) {
                    lemma_block_start_of_member(start as nat, i, ARITY as nat, height as nat);
                    lemma_sibling_blocks(i, ARITY as nat, height as nat, d);
                    lemma_block_bounds(i, ARITY as nat, (height - 1) as nat);
                }
            }
            if whole {
                lemma_digest_is_subtree_digest::<E, T, H, ARITY>(
                    grown,
                    elems@,
                    height as nat,
                    start as nat,
                );
            }
        }
        if whole {
            MerkleNode::ForgottenSubtree { value }
        } else {
            MerkleNode::Branch { value, children }
        }
    }
}

/// The digests of the given children, in order.
pub(crate) fn child_values<E: Copy, T: Copy, H: DigestAlgorithm<E, T>>(
    children: &Vec<MerkleNode<E, T>>,
) -> (data: Vec<T>)
    ensures
        data@ == child_digests::<E, T, H>(children@),
{
    let mut data: Vec<T> = Vec::new();
    let mut j: usize = 0;
    while j < children.len()
        invariant
            j <= children@.len(),
            data@.len() == j,
            forall|k: int| 0 <= k < j ==> data@[k] == (#[trigger] children@[k]).digest::<H>(),
        decreases children@.len() - j,
    {
        data.push(children[j].value::<H>());
        j = j + 1;
    }
    assert(data@ =~= child_digests::<E, T, H>(children@));
    data
}

/// Computes the digest of a branch over the given children.
fn digest_branch<E: Copy, T: Copy, H: DigestAlgorithm<E, T>>(
    children: &Vec<MerkleNode<E, T>>,
) -> (d: T)
    ensures
        d == H::branch_digest(child_digests::<E, T, H>(children@)),
{
    let data: Vec<T> = child_values::<E, T, H>(children);
    H::digest(&data)
}

/// What a proof keeps of each of the given children.
fn summaries<E: Copy, T: Copy, H: DigestAlgorithm<E, T>>(children: &Vec<MerkleNode<E, T>>) -> (kept:
    Vec<MerkleNode<E, T>>)
    ensures
        kept@.len() == children@.len(),
        forall|j: int| 0 <= j < kept@.len() ==> kept@[j] == (#[trigger] children@[j]).summary::<H>(),
{
    let mut kept: Vec<MerkleNode<E, T>> = Vec::new();
    let mut j: usize = 0;
    while j < children.len()
        invariant
            j <= children@.len(),
            kept@.len() == j,
            forall|k: int| 0 <= k < j ==> kept@[k] == (#[trigger] children@[k]).summary::<H>(),
        decreases children@.len() - j,
    {
        match &children[j] {
            MerkleNode::Empty => {
                kept.push(MerkleNode::Empty);
            },
            child => {
                kept.push(MerkleNode::ForgottenSubtree { value: child.value::<H>() });
            },
        }
        j = j + 1;
    }
    kept
}

/// A row of forgotten subtrees with the digests of the given nodes.
fn forgotten_row<E: Copy, T: Copy, H: DigestAlgorithm<E, T>>(nodes: &Vec<MerkleNode<E, T>>) -> (row:
    Vec<MerkleNode<E, T>>)
    ensures
        row@.len() == nodes@.len(),
        forall|j: int| 0 <= j < row@.len() ==> row@[j] == (#[trigger] nodes@[j]).forgotten::<H>(),
{
    let mut row: Vec<MerkleNode<E, T>> = Vec::new();
    let mut j: usize = 0;
    while j < nodes.len()
        invariant
            j <= nodes@.len(),
            row@.len() == j,
            forall|k: int| 0 <= k < j ==> row@[k] == (#[trigger] nodes@[k]).forgotten::<H>(),
        decreases nodes@.len() - j,
    {
        row.push(MerkleNode::ForgottenSubtree { value: nodes[j].value::<H>() });
        j = j + 1;
    }
    row
}

/// Tells whether every one of the given children is a forgotten subtree.
fn all_forgotten<E: Copy, T: Copy>(children: &Vec<MerkleNode<E, T>>) -> (all: bool)
    ensures
        all == (forall|j: int| 0 <= j < children@.len() ==> #[trigger] children@[j] is ForgottenSubtree),
{
    let mut j: usize = 0;
    while j < children.len()
        invariant
            j <= children@.len(),
            forall|k: int| 0 <= k < j ==> #[trigger] children@[k] is ForgottenSubtree,
        decreases children@.len() - j,
    {
        if !children[j].is_forgotten() {
            return false;
        }
        j = j + 1;
    }
    true
}

/// A row of empty slots.
fn empty_children<E, T>(arity: usize) -> (children: Vec<MerkleNode<E, T>>)
    ensures
        children@.len() == arity,
        forall|j: int| 0 <= j < arity ==> #[trigger] children@[j] is Empty,
{
    let mut children: Vec<MerkleNode<E, T>> = Vec::new();
    let mut j: usize = 0;
    while j < arity
        invariant
            j <= arity,
            children@.len() == j,
            forall|k: int| 0 <= k < j ==> #[trigger] children@[k] is Empty,
        decreases arity - j,
    {
        children.push(MerkleNode::Empty);
        j = j + 1;
    }
    children
}

/// Replaces each of the first `upto` children by its digest.
fn forget_before<E: Copy, T: Copy, H: DigestAlgorithm<E, T>>(
    children: &mut Vec<MerkleNode<E, T>>,
    upto: usize,
)
    requires
        upto <= old(children)@.len(),
    ensures
        final(children)@.len() == old(children)@.len(),
        forall|j: int|
            0 <= j < upto ==> #[trigger] final(children)@[j] == old(children)@[j].forgotten::<H>(),
        forall|j: int|
            upto <= j < old(children)@.len() ==> #[trigger] final(children)@[j] == old(children)@[j],
{
    let mut j: usize = 0;
    while j < upto
        invariant
            j <= upto <= children@.len(),
            children@.len() == old(children)@.len(),
            forall|k: int| 0 <= k < j ==> #[trigger] children@[k] == old(children)@[k].forgotten::<H>(),
            forall|k: int| j <= k < children@.len() ==> #[trigger] children@[k] == old(children)@[k],
        decreases upto - j,
    {
        if !children[j].is_forgotten() {
            let value = children[j].value::<H>();
            children[j] = MerkleNode::ForgottenSubtree { value };
        }
        j = j + 1;
    }
}

impl<E: Copy, T: Copy + PartialEq> MerkleNode<E, T> {
    /// Tells whether this node is a sound subtree of the given height whose
    /// first leaf index is `start`, in a tree that holds the leaves before
    /// `n`; a `start` that no machine word holds is given as `None`. Every
    /// digest in memory is computed again.
    pub(crate) fn is_sound<H: DigestAlgorithm<E, T>, const ARITY: usize>(
        &self,
        height: usize,
        start: Option<u64>,
        n: u64,
        Ghost(at): Ghost<nat>,
    ) -> (b: bool)
        requires
            ARITY >= 1,
            obeys_concrete_eq::<T>(),
            match start {
                Some(x) => x == at,
                None => at > u64::MAX,
            },
        ensures
            b == self.wf::<H, ARITY>(height as nat, at, n as nat),
        decreases height,
    {
        proof {
            reveal(obeys_concrete_eq);
            lemma_capacity_positive(ARITY as nat, height as nat);
        }
        match self {
            MerkleNode::Empty => match start {
                Some(x) => x >= n,
                None => true,
            },
            MerkleNode::Leaf { value, pos, elem } => match start {
                Some(x) => height == 0 && *pos == x && x < n && *value == H::digest_leaf(*pos, elem),
                None => false,
            },
            MerkleNode::ForgottenSubtree { value } => match start {
                Some(x) => match capacity_checked(ARITY, height) {
                    Some(c) => match x.checked_add(c) {
                        Some(end) => end <= n,
                        None => false,
                    },
                    None => false,
                },
                None => false,
            },
            MerkleNode::Branch { value, children } => {
                let first: u64 = match start {
                    Some(x) => x,
                    None => {
                        return false;
                    },
                };
                if height == 0 || first >= n || children.len() != ARITY {
                    return false;
                }
                let step: Option<u64> = capacity_checked(ARITY, height - 1);
                let mut j: usize = 0;
                while j < ARITY
                    invariant
                        ARITY >= 1,
                        obeys_concrete_eq::<T>(),
                        height > 0,
                        j <= ARITY,
                        children@.len() == ARITY,
                        *self matches MerkleNode::Branch { children: c, .. } && c == children,
                        first == at,
                        match step {
                            Some(c) => c == capacity(ARITY as nat, (height - 1) as nat),
                            None => capacity(ARITY as nat, (height - 1) as nat) > u64::MAX,
                        },
                        forall|k: int|
                            0 <= k < j ==> (#[trigger] children@[k]).wf::<H, ARITY>(
                                (height - 1) as nat,
                                child_start(at, k, ARITY as nat, height as nat),
                                n as nat,
                            ),
                    decreases ARITY - j,
                {
                    let offset: Option<u64> = match step {
                        Some(c) => (j as u64).checked_mul(c),
                        None => if j == 0 {
                            Some(0)
                        } else {
                            None
                        },
                    };
                    let below: Option<u64> = match offset {
                        Some(o) => first.checked_add(o),
                        None => None,
                    };
                    proof {
                        let c = capacity(ARITY as nat, (height - 1) as nat) as int;
                        lemma_capacity_positive(ARITY as nat, (height - 1) as nat);
                        if j > 0 {
                            assert(j * c >= c) by (nonlinear_arith)
                                requires
                                    j >= 1,
                                    c >= 0,
                            ;
                        }
                        assert(j * c >= 0) by (nonlinear_arith)
                            requires
                                j >= 0,
                                c >= 0,
                        ;
                        if j == 0 {
                            assert(j * c == 0) by (nonlinear_arith)
                                requires
                                    j == 0,
                            ;
                        }
                        if let Some(x) = step {
                            assert((j as u64) * x == j * c) by (nonlinear_arith)
                                requires
                                    x == c,
                                    j as u64 == j,
                            ;
                        }
                        let target = child_start(at, j as int, ARITY as nat, height as nat);
                        assert(target == at + j * c);
                        assert(match offset {
                            Some(o) => o == j * c,
                            None => j * c > u64::MAX,
                        });
                        assert(match below {
                            Some(x) => x == target,
                            None => target > u64::MAX,
                        });
                    }
                    if !children[j].is_sound::<H, ARITY>(
                        height - 1,
                        below,
                        n,
                        Ghost(child_start(at, j as int, ARITY as nat, height as nat)),
                    ) {
                        assert(!children@[j as int].wf::<H, ARITY>(
                            (height - 1) as nat,
                            child_start(at, j as int, ARITY as nat, height as nat),
                            n as nat,
                        ));
                        return false;
                    }
                    j = j + 1;
                }
                *value == digest_branch::<E, T, H>(children)
            },
        }
    }

    /// Tells whether every node in memory on the way from this node, of the
    /// given height, down to leaf `pos` has the digest that `values` gives for
    /// its height.
    pub(crate) fn agrees<H: DigestAlgorithm<E, T>, const ARITY: usize>(
        &self,
        height: usize,
        path: &Vec<usize>,
        pos: u64,
        values: &Vec<T>,
    ) -> (b: bool)
        requires
            obeys_concrete_eq::<T>(),
            path_leads_to(path@, pos as nat, ARITY as nat, height as nat),
        ensures
            b == self.agrees_with::<H, ARITY>(height as nat, pos as nat, values@),
        decreases height,
    {
        proof {
            reveal(obeys_concrete_eq);
        }
        if height >= values.len() {
            return false;
        }
        if !(self.value::<H>() == values[height]) {
            return false;
        }
        match self {
            MerkleNode::Branch { value, children } => {
                if height == 0 {
                    return false;
                }
                let d: usize = path[path.len() - height];
                if d < children.len() {
                    children[d].agrees::<H, ARITY>(height - 1, path, pos, values)
                } else {
                    false
                }
            },
            _ => true,
        }
    }
}

} // verus!
