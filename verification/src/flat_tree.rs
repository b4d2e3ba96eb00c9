//! Arithmetic of the flat binary-tree indexing scheme.
//!
//! Every node of the tree, leaf or parent, has one index. Leaves sit at the
//! even indices; the parent of two nodes sits halfway between them. A node of
//! height `h` therefore has an index whose `h` low-order bits are set and whose
//! next bit is clear: the nodes of height `h` are `2^h - 1 + k * 2^(h + 1)`,
//! and the subtree below such a node ends with the leaf `(k + 1) * 2^(h + 1) - 2`.

use vstd::prelude::*;
use vstd::arithmetic::power2::{
    pow2, lemma_pow2_pos, lemma_pow2_unfold, lemma2_to64, lemma_pow2_strictly_increases,
};

verus! {

/// The number of consecutive set bits of `index`, counted from bit 0.
pub open spec fn height_of(index: nat) -> nat
    decreases index,
{
    if index % 2 == 1 {
        1 + height_of(index / 2)
    } else {
        0
    }
}

/// The position of `index` among the nodes that are `height` levels up.
pub open spec fn index_at(index: nat, height: nat) -> nat {
    index / pow2(height)
}

/// The index of the first node of `height`.
pub open spec fn first_index_at(height: nat) -> nat {
    (pow2(height) - 1) as nat
}

/// The distance between two neighbouring nodes of `height`.
pub open spec fn stride_at(height: nat) -> nat {
    pow2(height + 1)
}

/// The last leaf of the subtree below the node `index` of `height`.
pub open spec fn last_leaf_below(index: nat, height: nat) -> nat {
    index + first_index_at(height)
}

/// The top node of `height` in a tree that holds the indices up to
/// `max_index`: the greatest index of a node of that height that does not
/// exceed `max_index`, if there is one.
///
/// At height 0 this is `max_index` itself. Higher up the nodes stand at
/// `first, first + stride, first + 2 * stride, ...`: there is none while
/// `max_index` is below the first, and else the top is the last of them at or
/// below `max_index`.
pub open spec fn top_index(height: nat, max_index: nat) -> Option<nat> {
    if height == 0 {
        Some(max_index)
    } else if max_index < first_index_at(height) {
        None
    } else {
        let steps = (max_index - first_index_at(height)) / stride_at(height) as int;
        Some((first_index_at(height) + steps * stride_at(height)) as nat)
    }
}

/// The height reached from `height` by taking `2^(height + 1)` off `remaining`
/// and stepping one level up, for as long as that much is left.
pub open spec fn highest_from(remaining: nat, height: nat) -> nat
    decreases remaining,
{
    if remaining >= pow2(height + 1) {
        proof {
            lemma_pow2_pos(height + 1);
        }
        highest_from((remaining - pow2(height + 1)) as nat, height + 1)
    } else {
        height
    }
}

/// The tallest height at which a tree whose last index is `max_index` has a
/// node.
pub open spec fn highest_height(max_index: nat) -> nat {
    highest_from(max_index, 0)
}

/// The even top indices of the heights below `heights`, lowest height first.
pub open spec fn orphans_below(max_index: nat, heights: nat) -> Seq<u64>
    decreases heights,
{
    if heights == 0 {
        Seq::empty()
    } else {
        let lower = orphans_below(max_index, (heights - 1) as nat);
        match top_index((heights - 1) as nat, max_index) {
            Some(index) => if index % 2 == 0 {
                lower.push(index as u64)
            } else {
                lower
            },
            None => lower,
        }
    }
}

/// The roots that are still without a sibling in a tree whose last index is
/// `max_index`: of each height up to the tallest, the top index where it is
/// even.
pub open spec fn orphan_indices(max_index: nat) -> Seq<u64> {
    orphans_below(max_index, highest_height(max_index) + 1)
}

/// `2^exponent` as a machine integer.
pub fn pow2_u64(exponent: u32) -> (power: u64)
    requires
        exponent < 64,
    ensures
        power == pow2(exponent as nat),
{
    let mut power: u64 = 1;
    let mut done: u32 = 0;
    proof {
        lemma2_to64();
    }
    while done < exponent
        invariant
            done <= exponent < 64,
            power == pow2(done as nat),
        decreases exponent - done,
    {
        proof {
            lemma_pow2_unfold((done + 1) as nat);
            lemma_pow2_strictly_increases((done + 1) as nat, 64);
            lemma2_to64();
        }
        power = power * 2;
        done = done + 1;
    }
    power
}

/// The `k`-th node of a height has exactly that height, and it is odd unless
/// it is a leaf.
pub proof fn lemma_height_of_node(height: nat, k: nat)
    ensures
        height_of(first_index_at(height) + k * stride_at(height)) == height,
        height >= 1 ==> (first_index_at(height) + k * stride_at(height)) % 2 == 1,
    decreases height,
{
    let index = first_index_at(height) + k * stride_at(height);
    lemma_pow2_pos(height);
    lemma_pow2_unfold(height + 1);
    if height == 0 {
        lemma2_to64();
        assert(index == k * 2);
    } else {
        let below = (height - 1) as nat;
        lemma_pow2_unfold(height);
        lemma_pow2_pos(below);
        let half = first_index_at(below) + k * stride_at(below);
        assert(index == 2 * half + 1) by (nonlinear_arith)
            requires
                index == (pow2(height) - 1) + k * pow2(height + 1),
                half == (pow2(below) - 1) + k * pow2(height),
                pow2(height) == 2 * pow2(below),
                pow2(height + 1) == 2 * pow2(height),
        ;
        lemma_height_of_node(below, k);
    }
}

/// The height of an index counts its set bits from bit 0 up to the first
/// clear one: below `2^(h + 1)` the index is `2^h - 1`.
pub proof fn lemma_height_of_low_bits(index: nat)
    ensures
        index % pow2(height_of(index) + 1) == pow2(height_of(index)) - 1,
    decreases index,
{
    lemma2_to64();
    if index % 2 == 1 {
        let half = index / 2;
        let below = height_of(half);
        lemma_height_of_low_bits(half);
        lemma_pow2_unfold(below + 1);
        lemma_pow2_unfold(below + 2);
        lemma_pow2_pos(below);
        let small = pow2(below + 1);
        let quotient = half / small;
        let rest = half % small;
        assert(half == small * quotient + rest) by {
            vstd::arithmetic::div_mod::lemma_fundamental_div_mod(half as int, small as int);
        }
        assert(index == (2 * small) * quotient + (2 * rest + 1)) by (nonlinear_arith)
            requires
                index == 2 * half + 1,
                half == small * quotient + rest,
        ;
        vstd::arithmetic::div_mod::lemma_fundamental_div_mod_converse_mod(
            index as int,
            (2 * small) as int,
            quotient as int,
            (2 * rest + 1) as int,
        );
    } else {
        assert(pow2(1) == 2);
        assert(pow2(0) == 1);
    }
}

/// What the top node of a height above the leaves is: a node of that
/// height, so an odd index, that does not exceed `max_index`, while the next
/// node of that height does. There is a top node as soon as `max_index` has
/// reached the first node of the height.
pub proof fn lemma_top_index_is_node(height: nat, max_index: nat)
    requires
        height >= 1,
    ensures
        top_index(height, max_index) is Some <==> max_index >= first_index_at(height),
        top_index(height, max_index) is Some ==> {
            &&& height_of(top_index(height, max_index)->0) == height
            &&& top_index(height, max_index)->0 % 2 == 1
            &&& top_index(height, max_index)->0 <= max_index < top_index(height, max_index)->0
                + stride_at(height)
        },
{
    if top_index(height, max_index) is Some {
        let stride = stride_at(height);
        let first = first_index_at(height);
        let steps = (max_index - first) / stride as int;
        lemma_pow2_pos(height + 1);
        assert(steps >= 0 && steps * stride <= max_index - first < steps * stride + stride)
            by (nonlinear_arith)
            requires
                steps == (max_index - first) / stride as int,
                max_index - first >= 0,
                stride > 0,
        ;
        lemma_height_of_node(height, steps as nat);
    }
}

/// The top node is the greatest of its height in the tree: no node of that
/// height that does not exceed `max_index` lies above it.
pub proof fn lemma_top_index_is_greatest(height: nat, max_index: nat, k: nat)
    requires
        height >= 1,
        first_index_at(height) + k * stride_at(height) <= max_index,
    ensures
        top_index(height, max_index) is Some,
        first_index_at(height) + k * stride_at(height) <= top_index(height, max_index)->0,
{
    let stride = stride_at(height);
    let first = first_index_at(height);
    let steps = (max_index - first) / stride as int;
    lemma_pow2_pos(height + 1);
    assert(k * stride >= 0) by (nonlinear_arith)
        requires
            stride > 0,
    ;
    assert(k * stride <= steps * stride) by (nonlinear_arith)
        requires
            steps == (max_index - first) / stride as int,
            k * stride <= max_index - first,
            stride > 0,
    ;
}

/// The tallest height is the one whose first subtree is complete while the
/// first subtree of the next height is not.
pub proof fn lemma_highest_height_bounds(max_index: nat)
    ensures
        last_leaf_below(first_index_at(highest_height(max_index)), highest_height(max_index))
            <= max_index,
        last_leaf_below(
            first_index_at(highest_height(max_index) + 1),
            highest_height(max_index) + 1,
        ) > max_index,
{
    lemma2_to64();
    lemma_highest_from_bounds(max_index, 0);
    let highest = highest_height(max_index);
    lemma_pow2_pos(highest);
    lemma_pow2_unfold(highest + 1);
    lemma_pow2_unfold(highest + 2);
}

proof fn lemma_highest_from_bounds(remaining: nat, height: nat)
    ensures
        highest_from(remaining, height) >= height,
        pow2(highest_from(remaining, height) + 1) <= remaining + pow2(height + 1) < pow2(
            highest_from(remaining, height) + 2,
        ),
    decreases remaining,
{
    lemma_pow2_pos(height + 1);
    lemma_pow2_unfold(height + 2);
    if remaining >= pow2(height + 1) {
        lemma_highest_from_bounds((remaining - pow2(height + 1)) as nat, height + 1);
    }
}

/// Only a leaf can be an orphan: the list holds `max_index` where that is
/// even, and nothing else.
pub proof fn lemma_orphan_indices_value(max_index: nat)
    requires
        max_index <= u64::MAX,
    ensures
        orphan_indices(max_index) == if max_index % 2 == 0 {
            seq![max_index as u64]
        } else {
            Seq::<u64>::empty()
        },
{
    lemma_orphans_below_value(max_index, highest_height(max_index) + 1);
}

proof fn lemma_orphans_below_value(max_index: nat, heights: nat)
    requires
        max_index <= u64::MAX,
        heights >= 1,
    ensures
        orphans_below(max_index, heights) == if max_index % 2 == 0 {
            seq![max_index as u64]
        } else {
            Seq::<u64>::empty()
        },
    decreases heights,
{
    if heights == 1 {
        assert(orphans_below(max_index, 0) == Seq::<u64>::empty());
        assert(Seq::<u64>::empty().push(max_index as u64) == seq![max_index as u64]);
    } else {
        lemma_orphans_below_value(max_index, (heights - 1) as nat);
        if top_index((heights - 1) as nat, max_index) is Some {
            lemma_top_index_is_node((heights - 1) as nat, max_index);
        }
    }
}

/// Every orphan index is even.
pub proof fn lemma_orphan_indices_even(max_index: nat)
    requires
        max_index <= u64::MAX,
    ensures
        forall|i: int|
            0 <= i < orphan_indices(max_index).len() ==> #[trigger] orphan_indices(max_index)[i]
                % 2 == 0,
{
    lemma_orphan_indices_value(max_index);
}

} // verus!
