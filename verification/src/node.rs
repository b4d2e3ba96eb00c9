//! Nodes of a merkle tree and the index operations on them.

use vstd::prelude::*;
use vstd::arithmetic::power2::{
    pow2, lemma_pow2_pos, lemma_pow2_unfold, lemma2_to64, lemma_pow2_strictly_increases,
};
use vstd::arithmetic::div_mod::lemma_basic_div;
use crate::primitives::H256;
use crate::flat_tree::{
    height_of, index_at, stride_at, top_index, highest_from,
    highest_height, orphans_below, orphan_indices, pow2_u64, lemma_orphan_indices_even,
};

verus! {

/// One node of a merkle tree, leaf or parent, addressed by its flat index.
#[derive(Clone, Copy, Debug, PartialEq, Eq)]
pub struct Node {
    pub index: u64,
    pub hash: H256,
    pub size: u64,
}

impl Node {
    /// The height of this node: 0 for a leaf.
    pub fn height(&self) -> (height: u32)
        ensures
            height == height_of(self.index as nat),
    {
        Self::get_height(self.index)
    }

    /// The height of the node at `index`: the number of its consecutive set
    /// bits, counted from bit 0.
    pub fn get_height(index: u64) -> (height: u32)
        ensures
            height == height_of(index as nat),
            height <= 64,
    {
        let mut height: u32 = 0;
        let mut rest: u64 = index;
        proof {
            lemma2_to64();
        }
        while rest % 2 == 1
            invariant
                height_of(index as nat) == height + height_of(rest as nat),
                height <= 64,
                rest * pow2(height as nat) <= index,
            decreases rest,
        {
            proof {
                let p: nat = pow2(height as nat);
                lemma_pow2_unfold((height + 1) as nat);
                lemma2_to64();
                assert((rest / 2) * (2 * p) <= rest * p) by (nonlinear_arith)
                    requires
                        rest % 2 == 1,
                ;
                if height == 64 {
                    assert(rest * p >= p) by (nonlinear_arith)
                        requires
                            rest >= 1,
                    ;
                }
            }
            rest = rest / 2;
            height = height + 1;
        }
        height
    }

    /// The position of this node among the nodes of its own height.
    pub fn relative_index(&self) -> (position: u64)
        ensures
            position == index_at(self.index as nat, height_of(self.index as nat)),
    {
        Self::index_at_height(self.index, self.height())
    }

    /// The position of `index` among the nodes that are `height` levels up:
    /// `index / 2^height`.
    pub fn index_at_height(index: u64, height: u32) -> (position: u64)
        ensures
            position == index_at(index as nat, height as nat),
    {
        if height >= 64 {
            proof {
                lemma2_to64();
                if height > 64 {
                    lemma_pow2_strictly_increases(64, height as nat);
                }
                lemma_basic_div(index as int, pow2(height as nat) as int);
            }
            0
        } else {
            let divisor: u64 = pow2_u64(height);
            proof {
                lemma_pow2_pos(height as nat);
            }
            index / divisor
        }
    }

    /// The top node of `height` in a tree that holds the indices up to
    /// `max_index`: the greatest index of a node of that height that does
    /// not exceed `max_index`, if there is one. At height 0 it is `max_index`
    /// itself.
    pub fn top_index_at_height(height: u32, max_index: u64) -> (top: Option<u64>)
        ensures
            match top {
                Some(index) => top_index(height as nat, max_index as nat) == Some(index as nat),
                None => top_index(height as nat, max_index as nat) is None,
            },
    {
        if height == 0 {
            return Some(max_index);
        }
        proof {
            lemma2_to64();
            lemma_pow2_pos(height as nat);
            lemma_pow2_pos((height + 1) as nat);
            lemma_pow2_unfold((height + 1) as nat);
        }
        if height >= 64 {
            // The first node of height 64 is the last index that 64 bits hold;
            // the first nodes of the heights above lie beyond it.
            proof {
                if height > 64 {
                    lemma_pow2_strictly_increases(64, height as nat);
                }
            }
            if height == 64 && max_index == u64::MAX {
                proof {
                    lemma_basic_div(0, stride_at(64) as int);
                    assert(0 * stride_at(64) == 0);
                }
                return Some(max_index);
            }
            return None;
        }
        proof {
            lemma_pow2_strictly_increases(0, height as nat);
        }
        let first: u64 = pow2_u64(height) - 1;
        if max_index < first {
            return None;
        }
        let above: u64 = max_index - first;
        if height == 63 {
            // The next node of this height lies beyond the last index.
            proof {
                lemma_basic_div(above as int, stride_at(63) as int);
                assert(0 * stride_at(63) == 0);
            }
            return Some(first);
        }
        proof {
            lemma_pow2_strictly_increases((height + 1) as nat, 64);
        }
        let stride: u64 = pow2_u64(height + 1);
        let steps: u64 = above / stride;
        proof {
            assert(steps * stride <= above) by (nonlinear_arith)
                requires
                    steps == above / stride,
                    stride > 0,
            ;
        }
        Some(first + steps * stride)
    }

    /// The tallest height at which a tree whose last index is `max_index` has
    /// a node: `2^(h + 1)` is taken off `max_index` and `h` is raised, for as
    /// long as that much is left.
    pub fn highest_at_index(max_index: u64) -> (height: u32)
        ensures
            height == highest_height(max_index as nat),
            height <= 63,
    {
        let mut height: u32 = 0;
        let mut remaining: u64 = max_index;
        let mut step: u64 = 2;
        proof {
            lemma2_to64();
        }
        while remaining >= step
            invariant
                height <= 62,
                step == pow2((height + 1) as nat),
                highest_from(remaining as nat, height as nat) == highest_height(max_index as nat),
                remaining + step - 2 == max_index,
            decreases remaining,
        {
            proof {
                lemma_pow2_unfold((height + 2) as nat);
                lemma_pow2_pos((height + 1) as nat);
                lemma2_to64();
                assert(highest_from(remaining as nat, height as nat) == highest_from(
                    (remaining - step) as nat,
                    (height + 1) as nat,
                ));
            }
            remaining = remaining - step;
            height = height + 1;
            if height == 63 {
                assert(highest_from(remaining as nat, 63) == 63);
                return height;
            }
            proof {
                lemma_pow2_strictly_increases((height + 1) as nat, 64);
            }
            step = step * 2;
        }
        height
    }

    /// The indices of the roots that are still without a sibling in a tree
    /// whose last index is `highest_index`, lowest height first. All of them
    /// are even.
    pub fn get_orphan_indeces(highest_index: u64) -> (indeces: Vec<u64>)
        ensures
            indeces@ == orphan_indices(highest_index as nat),
            forall|i: int| 0 <= i < indeces@.len() ==> #[trigger] indeces@[i] % 2 == 0,
    {
        let tallest: u32 = Self::highest_at_index(highest_index);
        let mut indeces: Vec<u64> = Vec::new();
        let mut height: u32 = 0;
        while height <= tallest
            invariant
                tallest <= 63,
                height <= tallest + 1,
                indeces@ == orphans_below(highest_index as nat, height as nat),
            decreases tallest + 1 - height,
        {
            match Self::top_index_at_height(height, highest_index) {
                Some(index) => {
                    if index % 2 == 0 {
                        indeces.push(index);
                    }
                },
                None => {},
            }
            height = height + 1;
        }
        proof {
            lemma_orphan_indices_even(highest_index as nat);
        }
        indeces
    }

    /// Whether this node is one of the orphans of a tree whose last index is
    /// `highest_index`.
    pub fn is_orphan(&self, highest_index: u64) -> (orphan: bool)
        ensures
            orphan == orphan_indices(highest_index as nat).contains(self.index),
    {
        let indeces: Vec<u64> = Self::get_orphan_indeces(highest_index);
        contains_index(&indeces, self.index)
    }
}

/// Whether `indices` holds `index`.
pub fn contains_index(indices: &Vec<u64>, index: u64) -> (found: bool)
    ensures
        found == indices@.contains(index),
{
    let mut at: usize = 0;
    while at < indices.len()
        invariant
            at <= indices@.len(),
            forall|i: int| 0 <= i < at ==> indices@[i] != index,
        decreases indices@.len() - at,
    {
        if indices[at] == index {
            return true;
        }
        at = at + 1;
    }
    false
}

} // verus!
