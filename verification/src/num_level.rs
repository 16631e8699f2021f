//! How high a tree is made, and how many nodes it has.

use vstd::prelude::*;
use crate::node::tree_size;

verus! {

/// The number of elements that a leaf is meant to hold.
///
/// With a node for every element a tree would have too many levels, and the
/// time would go into walking it. With too many elements in a node little
/// would be left of the tree, and a search would be one long sweep.
pub const DEFAULT_NUMBER_ELEM_PER_NODE: usize = 32;

/// The logarithm to base two, rounded down; zero for zero.
pub open spec fn log2_floor(x: nat) -> nat
    decreases x,
{
    if x <= 1 {
        0
    } else {
        1 + log2_floor(x / 2)
    }
}

/// The height of a tree over `num_bots` elements with about `num_per_node`
/// elements to a leaf: one if a single node can hold them all, and otherwise
/// the logarithm to base two of the number of leaves that are needed, made
/// even by rounding down, plus one.
pub open spec fn height_for(num_bots: nat, num_per_node: nat) -> nat {
    if num_bots <= num_per_node {
        1
    } else {
        2 * (log2_floor(num_bots / num_per_node) / 2) + 1
    }
}

pub proof fn lemma_log2_bound(x: nat, bits: nat)
    requires
        x < vstd::arithmetic::power2::pow2(bits),
    ensures
        log2_floor(x) <= bits,
    decreases x,
{
    if x > 1 {
        if bits == 0 {
            vstd::arithmetic::power2::lemma2_to64();
        } else {
            vstd::arithmetic::power2::lemma_pow2_unfold(bits);
            lemma_log2_bound(x / 2, (bits - 1) as nat);
        }
    }
}

/// The logarithm to base two of `x`, rounded down.
pub fn log_2(x: u64) -> (r: u64)
    requires
        x > 0,
    ensures
        r == log2_floor(x as nat),
        r < 64,
{
    let mut rest: u64 = x;
    let mut r: u64 = 0;
    proof {
        vstd::arithmetic::power2::lemma2_to64_rest();
        lemma_log2_bound(x as nat, 64);
    }
    while rest > 1
        invariant
            rest >= 1,
            r + log2_floor(rest as nat) == log2_floor(x as nat),
            log2_floor(x as nat) <= 64,
        decreases rest,
    {
        rest = rest / 2;
        r = r + 1;
    }
    proof {
        // A number below 2^64 has a logarithm below 64.
        if r == 64 {
            lemma_log2_at_least(x as nat, 64);
            vstd::arithmetic::power2::lemma2_to64_rest();
        }
    }
    r
}

/// A number whose logarithm is at least `bits` is at least `2^bits`.
pub proof fn lemma_log2_at_least(x: nat, bits: nat)
    requires
        log2_floor(x) >= bits,
    ensures
        x >= vstd::arithmetic::power2::pow2(bits) || bits == 0,
    decreases bits,
{
    if bits > 0 {
        vstd::arithmetic::power2::lemma_pow2_unfold(bits);
        if bits == 1 {
            vstd::arithmetic::power2::lemma2_to64();
        } else {
            lemma_log2_at_least(x / 2, (bits - 1) as nat);
        }
    }
}

/// Computes [`height_for`].
pub fn compute_tree_height_heuristic(num_bots: usize, num_per_node: usize) -> (r: usize)
    requires
        num_per_node >= 1,
    ensures
        r == height_for(num_bots as nat, num_per_node as nat),
        r >= 1,
        r % 2 == 1,
        r <= 63,
{
    if num_bots <= num_per_node {
        1
    } else {
        let a: u64 = num_bots as u64 / num_per_node as u64;
        assert(a >= 1) by (nonlinear_arith)
            requires
                a == num_bots as int / num_per_node as int,
                num_bots > num_per_node >= 1,
        ;
        let a: u64 = log_2(a);
        let k: usize = (((a / 2) * 2) + 1) as usize;
        k
    }
}

/// The height of a tree over `num_elements` elements with the default
/// number of elements to a leaf.
pub fn default(num_elements: usize) -> (r: usize)
    ensures
        r == height_for(num_elements as nat, DEFAULT_NUMBER_ELEM_PER_NODE as nat),
        r >= 1,
        r % 2 == 1,
{
    compute_tree_height_heuristic(num_elements, DEFAULT_NUMBER_ELEM_PER_NODE)
}

/// The height of a tree over `num_elements` elements with about
/// `num_elem_leaf` elements to a leaf.
pub fn with_num_elem_in_leaf(num_elements: usize, num_elem_leaf: usize) -> (r: usize)
    requires
        num_elem_leaf >= 1,
    ensures
        r == height_for(num_elements as nat, num_elem_leaf as nat),
        r >= 1,
        r % 2 == 1,
{
    compute_tree_height_heuristic(num_elements, num_elem_leaf)
}

/// The number of nodes of a tree with `num_levels` levels: `2^num_levels - 1`.
pub fn num_nodes(num_levels: usize) -> (r: usize)
    requires
        tree_size(num_levels as nat) <= usize::MAX,
    ensures
        r == tree_size(num_levels as nat),
{
    let mut r: usize = 0;
    let mut k: usize = 0;
    while k < num_levels
        invariant
            k <= num_levels,
            r == tree_size(k as nat),
            tree_size(num_levels as nat) <= usize::MAX,
        decreases num_levels - k,
    {
        proof {
            crate::node::lemma_tree_size_monotone((k + 1) as nat, num_levels as nat);
        }
        r = 2 * r + 1;
        k += 1;
    }
    r
}

} // verus!
