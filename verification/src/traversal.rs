//! Capacity and traversal arithmetic: how a leaf index is written in base
//! `arity`, and how many leaves a tree of a given height holds.

use vstd::arithmetic::div_mod::*;
use vstd::arithmetic::mul::*;
use vstd::arithmetic::power::*;
use vstd::arithmetic::power2::*;
use vstd::prelude::*;

verus! {

/// The number of leaves below a node of the given height: `arity ^ height`.
pub open spec fn capacity(arity: nat, height: nat) -> nat {
    pow(arity as int, height) as nat
}

/// The child chosen at a node of height `level + 1` on the way down to leaf
/// `index`: the digit of weight `arity ^ level` of `index` written in base
/// `arity`.
pub open spec fn selector(index: nat, arity: nat, level: nat) -> nat {
    (index / capacity(arity, level)) % arity
}

/// The selectors on the way from the root of a tree of the given height down to
/// leaf `index`, the one used at the root first.
pub open spec fn traversal_path(index: nat, arity: nat, height: nat) -> Seq<usize> {
    Seq::new(height, |k: int| selector(index, arity, (height - 1 - k) as nat) as usize)
}

/// The first leaf index below the node of the given height that lies on the way
/// to leaf `index`.
pub open spec fn block_start(index: nat, arity: nat, height: nat) -> nat {
    (index / capacity(arity, height)) * capacity(arity, height)
}

/// The least height, at least one, at which `n` leaves fit.
pub open spec fn is_minimal_height(arity: nat, n: nat, height: nat) -> bool {
    &&& height >= 1
    &&& n <= capacity(arity, height)
    &&& height > 1 ==> capacity(arity, (height - 1) as nat) < n
}

/// Whether a tree of the asked height can be built over `len` elements: always
/// where no height is asked for, and where the height is given, if the tree
/// has room for them.
pub open spec fn can_build<const ARITY: usize>(height: Option<usize>, len: nat) -> bool {
    match height {
        Some(h) => len <= capacity(ARITY as nat, h as nat),
        None => true,
    }
}

/// How many of `len` elements an append places in a tree with `room` free
/// slots.
pub open spec fn placed(len: nat, room: nat) -> nat {
    if len <= room {
        len
    } else {
        room
    }
}

pub proof fn lemma_capacity_positive(arity: nat, height: nat)
    requires
        arity >= 1,
    ensures
        capacity(arity, height) >= 1,
{
    lemma_pow_positive(arity as int, height);
}

pub proof fn lemma_capacity_zero(arity: nat)
    ensures
        capacity(arity, 0) == 1,
{
    lemma_pow0(arity as int);
}

pub proof fn lemma_capacity_one(arity: nat)
    ensures
        capacity(arity, 1) == arity,
{
    lemma_pow1(arity as int);
}

pub proof fn lemma_capacity_step(arity: nat, height: nat)
    requires
        arity >= 1,
    ensures
        capacity(arity, height + 1) == arity * capacity(arity, height),
{
    reveal(pow);
    lemma_pow_positive(arity as int, height);
    lemma_pow_positive(arity as int, height + 1);
}

pub proof fn lemma_capacity_monotonic(arity: nat, low: nat, high: nat)
    requires
        arity >= 1,
        low <= high,
    ensures
        capacity(arity, low) <= capacity(arity, high),
{
    lemma_pow_positive(arity as int, low);
    lemma_pow_positive(arity as int, high);
    lemma_pow_increases(arity, low, high);
}

pub proof fn lemma_capacity_at_least_pow2(arity: nat, height: nat)
    requires
        arity >= 2,
    ensures
        capacity(arity, height) >= pow2(height),
    decreases height,
{
    if height == 0 {
        lemma_capacity_zero(arity);
        lemma2_to64();
    } else {
        lemma_capacity_at_least_pow2(arity, (height - 1) as nat);
        lemma_capacity_step(arity, (height - 1) as nat);
        lemma_pow2_unfold(height);
        let c = capacity(arity, (height - 1) as nat);
        assert(arity * c >= 2 * c) by (nonlinear_arith)
            requires
                arity >= 2,
                c >= 0,
        ;
    }
}

/// A leaf index lies in the block that starts at its block start.
pub proof fn lemma_block_bounds(index: nat, arity: nat, height: nat)
    requires
        arity >= 1,
    ensures
        block_start(index, arity, height) <= index < block_start(index, arity, height) + capacity(
            arity,
            height,
        ),
{
    lemma_capacity_positive(arity, height);
    let c = capacity(arity, height) as int;
    lemma_fundamental_div_mod(index as int, c);
    lemma_mod_bound(index as int, c);
    lemma_mul_is_commutative(c, index as int / c);
}

/// Below the root of a tree that is large enough, the block starts at zero.
pub proof fn lemma_block_start_root(index: nat, arity: nat, height: nat)
    requires
        arity >= 1,
        index < capacity(arity, height),
    ensures
        block_start(index, arity, height) == 0,
{
    lemma_basic_div(index as int, capacity(arity, height) as int);
}

/// At height zero every leaf is a block of its own.
pub proof fn lemma_block_start_leaf(index: nat, arity: nat)
    ensures
        block_start(index, arity, 0) == index,
{
    lemma_capacity_zero(arity);
}

/// Going down one level: the selector picks the child block that holds the leaf.
pub proof fn lemma_block_descend(index: nat, arity: nat, height: nat)
    requires
        arity >= 1,
        height >= 1,
    ensures
        selector(index, arity, (height - 1) as nat) < arity,
        block_start(index, arity, (height - 1) as nat) == block_start(index, arity, height)
            + selector(index, arity, (height - 1) as nat) * capacity(arity, (height - 1) as nat),
{
    let low = (height - 1) as nat;
    let c = capacity(arity, low) as int;
    let a = arity as int;
    let x = index as int / c;
    lemma_capacity_positive(arity, low);
    lemma_capacity_step(arity, low);
    lemma_fundamental_div_mod(x, a);
    lemma_mod_bound(x, a);
    lemma_div_denominator(index as int, c, a);
    lemma_div_pos_is_pos(index as int, c);
    assert(capacity(arity, height) == a * c);
    assert(c * a == a * c) by (nonlinear_arith);
    assert(x / a == index as int / (a * c));
    let q = x / a;
    let d = x % a;
    assert(x == a * q + d);
    assert(x * c == q * (a * c) + d * c) by (nonlinear_arith)
        requires
            x == a * q + d,
    ;
}

/// A block that starts where blocks of its height start holds exactly the
/// leaves whose block it is.
pub proof fn lemma_block_start_of_member(start: nat, index: nat, arity: nat, height: nat)
    requires
        arity >= 1,
        start == block_start(start, arity, height),
        start <= index < start + capacity(arity, height),
    ensures
        block_start(index, arity, height) == start,
{
    let c = capacity(arity, height) as int;
    lemma_capacity_positive(arity, height);
    let k = start as int / c;
    lemma_div_pos_is_pos(start as int, c);
    lemma_fundamental_div_mod_converse(index as int, c, k, index - start);
}

/// The blocks of the children of a node start where blocks of their height
/// start, if the block of the node does.
pub proof fn lemma_aligned_child(start: nat, arity: nat, height: nat, j: int)
    requires
        arity >= 1,
        height >= 1,
        0 <= j < arity,
        start == block_start(start, arity, height),
    ensures
        start + j * capacity(arity, (height - 1) as nat) >= 0,
        block_start(
            (start + j * capacity(arity, (height - 1) as nat)) as nat,
            arity,
            (height - 1) as nat,
        ) == start + j * capacity(arity, (height - 1) as nat),
{
    let low = (height - 1) as nat;
    let c = capacity(arity, low) as int;
    let a = arity as int;
    lemma_capacity_positive(arity, low);
    lemma_capacity_step(arity, low);
    assert(a * c >= 1) by (nonlinear_arith)
        requires
            a >= 1,
            c >= 1,
    ;
    let k = start as int / (a * c);
    lemma_div_pos_is_pos(start as int, a * c);
    assert(start == k * (a * c));
    assert(k * (a * c) + j * c == (k * a + j) * c) by (nonlinear_arith);
    assert((k * a + j) * c >= 0) by (nonlinear_arith)
        requires
            k >= 0,
            a >= 0,
            j >= 0,
            c >= 0,
    ;
    assert(k * a + j >= 0) by (nonlinear_arith)
        requires
            k >= 0,
            a >= 0,
            j >= 0,
    ;
    lemma_fundamental_div_mod_converse(start + j * c, c, k * a + j, 0);
}

/// Writes `index` in base `arity` with `height` digits, the most significant
/// first. Digits beyond the `height` lowest are dropped.
pub fn to_traversal_path(index: u64, arity: usize, height: usize) -> (path: Vec<usize>)
    requires
        arity >= 1,
    ensures
        path@ == traversal_path(index as nat, arity as nat, height as nat),
{
    let mut digits: Vec<usize> = Vec::new();
    let mut rest: u64 = index;
    let mut level: usize = 0;
    proof {
        lemma_capacity_zero(arity as nat);
    }
    while level < height
        invariant
            arity >= 1,
            level <= height,
            digits@.len() == level,
            rest == index as nat / capacity(arity as nat, level as nat),
            forall|l: int|
                0 <= l < level ==> digits@[l] == selector(index as nat, arity as nat, l as nat),
        decreases height - level,
    {
        let digit: u64 = rest % (arity as u64);
        proof {
            let c = capacity(arity as nat, level as nat) as int;
            lemma_capacity_positive(arity as nat, level as nat);
            lemma_capacity_step(arity as nat, level as nat);
            lemma_div_denominator(index as int, c, arity as int);
            assert(arity as int * c == c * arity as int) by (nonlinear_arith);
        }
        digits.push(digit as usize);
        rest = rest / (arity as u64);
        level = level + 1;
    }
    let mut path: Vec<usize> = Vec::new();
    let mut k: usize = 0;
    while k < height
        invariant
            k <= height,
            digits@.len() == height,
            path@.len() == k,
            forall|j: int| 0 <= j < k ==> path@[j] == digits@[height - 1 - j],
        decreases height - k,
    {
        path.push(digits[height - 1 - k]);
        k = k + 1;
    }
    assert(path@ =~= traversal_path(index as nat, arity as nat, height as nat));
    path
}

/// The capacity of a tree of the given arity and height, if a machine word
/// holds it.
pub fn capacity_checked(arity: usize, height: usize) -> (cap: Option<u64>)
    requires
        arity >= 1,
    ensures
        match cap {
            Some(c) => c == capacity(arity as nat, height as nat),
            None => capacity(arity as nat, height as nat) > u64::MAX,
        },
{
    proof {
        lemma_capacity_zero(arity as nat);
    }
    let mut cap: u64 = 1;
    let mut level: usize = 0;
    while level < height
        invariant
            arity >= 1,
            level <= height,
            cap == capacity(arity as nat, level as nat),
        decreases height - level,
    {
        proof {
            lemma_capacity_step(arity as nat, level as nat);
            lemma_capacity_monotonic(arity as nat, (level + 1) as nat, height as nat);
            lemma_mul_is_commutative(cap as int, arity as int);
        }
        match cap.checked_mul(arity as u64) {
            None => {
                return None;
            },
            Some(next) => {
                cap = next;
            },
        }
        level = level + 1;
    }
    Some(cap)
}

/// Tells whether a tree of the given arity and height holds more than `bound`
/// leaves, also where its capacity does not fit in a machine word.
pub fn capacity_exceeds(arity: usize, height: usize, bound: u64) -> (more: bool)
    requires
        arity >= 1,
    ensures
        more == (capacity(arity as nat, height as nat) > bound),
{
    match capacity_checked(arity, height) {
        Some(cap) => cap > bound,
        None => true,
    }
}

/// The least height, at least one, of a tree of the given arity that holds `n`
/// leaves.
pub fn minimal_height(arity: usize, n: u64) -> (height: usize)
    requires
        arity >= 2,
    ensures
        is_minimal_height(arity as nat, n as nat, height as nat),
{
    let mut height: usize = 1;
    let mut cap: u64 = arity as u64;
    proof {
        lemma_capacity_one(arity as nat);
    }
    while cap < n
        invariant
            arity >= 2,
            1 <= height <= 63,
            cap >= 1,
            cap == capacity(arity as nat, height as nat),
            height > 1 ==> capacity(arity as nat, (height - 1) as nat) < n,
        decreases 64 - height,
    {
        proof {
            lemma_capacity_step(arity as nat, height as nat);
            lemma_capacity_at_least_pow2(arity as nat, (height + 1) as nat);
            lemma2_to64();
            if height + 1 > 64 {
                lemma_pow2_strictly_increases(64, (height + 1) as nat);
            }
            assert(arity * cap >= 2 * cap) by (nonlinear_arith)
                requires
                    arity >= 2,
                    cap >= 0,
            ;
            lemma_mul_is_commutative(cap as int, arity as int);
        }
        match cap.checked_mul(arity as u64) {
            None => {
                return height + 1;
            },
            Some(next) => {
                cap = next;
            },
        }
        height = height + 1;
    }
    height
}

} // verus!
