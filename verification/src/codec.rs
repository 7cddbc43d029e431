//! The sparse-bit-set codec: tree construction, branch-factor selection,
//! serialization and breadth-first decoding.
//!
//! A set of integers is encoded as a complete prefix tree of a chosen branch
//! factor `b`: a node at depth `d` (root at depth 1) of a tree of height `h`
//! is a `b`-bit mask whose bit `j` says whether child `j` leads to a value.
//! At the deepest layer a set bit directly denotes an included integer. A
//! node whose bits are all zero marks a fully-filled subtree: every integer
//! it covers is present. Nodes are written root-to-leaf, left-to-right,
//! after a header byte holding the branch-factor code and the height.

use vstd::arithmetic::div_mod::lemma_div_decreases;
use vstd::arithmetic::div_mod::lemma_div_is_ordered;
use vstd::arithmetic::power::lemma_pow_multiplies;
use vstd::arithmetic::power::lemma_pow_positive;
use vstd::arithmetic::power::lemma_pow_strictly_increases;
use vstd::arithmetic::power::pow;
use vstd::arithmetic::power2::lemma2_to64;
use vstd::arithmetic::power2::lemma_pow2;
use vstd::arithmetic::power2::pow2;
use vstd::prelude::*;

use std::collections::VecDeque;

use crate::bit_stream::header_word;
use crate::bit_stream::InputBitStream;
use crate::bit_stream::OutputBitStream;
use crate::bits::bit_of;
use crate::bits::bit_val;
use crate::bits::bits_to_bytes;
use crate::bits::byte_at;
use crate::bits::byte_bit;
use crate::bits::bytes_bits;
use crate::bits::field_val;
use crate::bits::word_bits;
use crate::branch_factor::bf_code;
use crate::branch_factor::bf_of_code;
use crate::branch_factor::bf_valid;
use crate::branch_factor::BranchFactor;
use crate::int_set::range_set;
use crate::int_set::set_insert;
use crate::int_set::sorted_strict;
use crate::int_set::IntSet;

verus! {

/// The input data stream was too short to be a valid sparse bit set.
#[derive(Debug)]
pub struct DecodingError();

/// One encoder tree node: a `branch factor`-wide bitmask and the index this
/// node occupies in the layer above.
#[derive(Clone, Copy, Debug, PartialEq, Eq, Structural)]
pub struct Node {
    pub bits: u32,
    pub parent_index: u32,
}

/// One queued decoder node awaiting expansion: the first integer its child 0
/// would represent, and its depth (root = 1).
#[derive(Clone, Copy, Debug, PartialEq, Eq, Structural)]
pub struct NextNode {
    pub start: u32,
    pub depth: u32,
}

/// The height of the tree for branch factor `b` and maximum value `m`: the
/// smallest `h >= 1` with `b^h > m`.
pub open spec fn tree_height(b: nat, m: nat) -> nat
    decreases m,
    when b >= 2
    via tree_height_decreases
{
    if m < b {
        1
    } else {
        1 + tree_height(b, m / b)
    }
}

#[via_fn]
proof fn tree_height_decreases(b: nat, m: nat) {
    if b >= 2 && m >= b {
        lemma_div_decreases(m as int, b as int);
    }
}

/// The height is the least `h >= 1` whose tree covers `m`.
pub proof fn lemma_tree_height_le(b: nat, m: nat, k: nat)
    requires
        b >= 2,
        k >= 1,
    ensures
        tree_height(b, m) <= k <==> m < pow(b as int, k),
    decreases k,
{
    reveal(pow);
    if m < b {
        assert(pow(b as int, k) >= pow(b as int, 1) > m) by {
            if k > 1 {
                lemma_pow_strictly_increases(b, 1, k);
            }
            assert(pow(b as int, 1) == b * pow(b as int, 0));
        }
    } else {
        if k == 1 {
            assert(pow(b as int, 1) == b * pow(b as int, 0));
            assert(tree_height(b, m) >= 2);
        } else {
            lemma_tree_height_le(b, m / b, (k - 1) as nat);
            let p = pow(b as int, (k - 1) as nat);
            assert(pow(b as int, k) == b * p);
            lemma_pow_positive(b as int, (k - 1) as nat);
            assert(m / b < p <==> m < b * p) by (nonlinear_arith)
                requires
                    b >= 2,
                    p >= 1,
                    m >= 0,
            ;
        }
    }
}

/// A maximum value of zero always needs exactly one layer.
pub proof fn lemma_tree_height_at_zero(b: nat)
    requires
        b >= 2,
    ensures
        tree_height(b, 0) == 1,
{
}

/// Height is non-decreasing in the maximum value.
pub proof fn lemma_tree_height_monotonic(b: nat, m1: nat, m2: nat)
    requires
        b >= 2,
        m1 <= m2,
    ensures
        tree_height(b, m1) <= tree_height(b, m2),
    decreases m2,
{
    if m1 < b {
        assert(tree_height(b, m1) == 1);
        assert(tree_height(b, m2) >= 1);
    } else {
        lemma_div_is_ordered(m1 as int, m2 as int, b as int);
        lemma_div_decreases(m2 as int, b as int);
        lemma_tree_height_monotonic(b, m1 / b, m2 / b);
    }
}

/// For every supported branch factor, values below `2^31` fit in a tree of
/// height at most 31 (the largest height the five-bit header field holds).
pub proof fn lemma_heights_fit(m: nat)
    requires
        m < 0x80000000,
    ensures
        tree_height(2, m) <= 31,
        tree_height(4, m) <= 31,
        tree_height(8, m) <= 31,
        tree_height(32, m) <= 31,
{
    reveal(pow);
    lemma2_to64();
    lemma_pow2(31);
    assert(pow(2, 31) == 0x80000000);
    assert(pow(2, 2) == 4 && pow(2, 3) == 8 && pow(2, 5) == 32) by {
        assert(pow(2, 2) == 2 * (2 * pow(2, 0)));
        assert(pow(2, 3) == 2 * (2 * (2 * pow(2, 0))));
        assert(pow(2, 5) == 2 * (2 * (2 * (2 * (2 * pow(2, 0))))));
    }
    lemma_pow_multiplies(2, 2, 31);
    lemma_pow_multiplies(2, 3, 31);
    lemma_pow_multiplies(2, 5, 31);
    lemma_pow_strictly_increases(2, 31, 62);
    lemma_pow_strictly_increases(2, 31, 93);
    lemma_pow_strictly_increases(2, 31, 155);
    lemma_tree_height_le(2, m, 31);
    lemma_tree_height_le(4, m, 31);
    lemma_tree_height_le(8, m, 31);
    lemma_tree_height_le(32, m, 31);
}

/// Every `u32` fits in a tree of height at most 32.
pub proof fn lemma_height_bound(b: nat, m: nat)
    requires
        b >= 2,
        m < 0x100000000,
    ensures
        1 <= tree_height(b, m) <= 32,
{
    reveal(pow);
    lemma2_to64();
    lemma_pow2(32);
    assert(pow(2, 32) == 0x100000000);
    if b > 2 {
        lemma_pow_strictly_increases_base(2, b, 32);
    }
    lemma_tree_height_le(b, m, 32);
}

/// A larger base gives a larger power, for positive exponents.
pub proof fn lemma_pow_strictly_increases_base(b1: nat, b2: nat, e: nat)
    requires
        0 < b1 < b2,
        e >= 1,
    ensures
        pow(b1 as int, e) < pow(b2 as int, e),
    decreases e,
{
    reveal(pow);
    if e == 1 {
        assert(pow(b1 as int, 1) == b1 * pow(b1 as int, 0));
        assert(pow(b2 as int, 1) == b2 * pow(b2 as int, 0));
    } else {
        lemma_pow_strictly_increases_base(b1, b2, (e - 1) as nat);
        lemma_pow_positive(b1 as int, (e - 1) as nat);
        lemma_pow_positive(b2 as int, (e - 1) as nat);
        let p1 = pow(b1 as int, (e - 1) as nat);
        let p2 = pow(b2 as int, (e - 1) as nat);
        assert(b1 * p1 < b2 * p2) by (nonlinear_arith)
            requires
                0 < b1 < b2,
                0 < p1 < p2,
        ;
    }
}

/// `log2` of a supported branch factor: the shift that divides by it.
pub fn branch_factor_node_size_log2(branch_factor: u32) -> (r: u32)
    requires
        bf_valid(branch_factor),
    ensures
        (1u32 << r) == branch_factor,
        r <= 5,
{
    proof {
        assert((1u32 << 1u32) == 2 && (1u32 << 2u32) == 4 && (1u32 << 3u32) == 8 && (1u32
            << 5u32) == 32) by (bit_vector);
    }
    match branch_factor {
        2 => 1,
        4 => 2,
        8 => 3,
        _ => 5,
    }
}

/// The height of the tree needed to cover `max_value`, per `tree_height`.
pub fn tree_height_for(branch_factor: u32, max_value: u32) -> (h: u8)
    requires
        bf_valid(branch_factor),
    ensures
        h as nat == tree_height(branch_factor as nat, max_value as nat),
        1 <= h <= 32,
{
    let ghost b = branch_factor as nat;
    proof {
        lemma_height_bound(b, max_value as nat);
    }
    let log2 = branch_factor_node_size_log2(branch_factor);
    let mut height: u8 = 1;
    let mut m = max_value >> log2;
    proof {
        assert(max_value >> log2 == max_value / (1u32 << log2)) by (bit_vector)
            requires
                log2 <= 5,
        ;
        assert(max_value / branch_factor == 0 <==> max_value < branch_factor) by (nonlinear_arith)
            requires
                branch_factor >= 2,
        ;
        if m > 0 {
            assert(tree_height(b, max_value as nat) == 1 + tree_height(b, m as nat));
        } else {
            assert(tree_height(b, max_value as nat) == 1);
        }
    }
    while m > 0
        invariant
            bf_valid(branch_factor),
            b == branch_factor as nat,
            (1u32 << log2) == branch_factor,
            log2 <= 5,
            1 <= height <= 32,
            m > 0 ==> height + tree_height(b, m as nat) == tree_height(b, max_value as nat),
            m == 0 ==> height as nat == tree_height(b, max_value as nat),
            height <= tree_height(b, max_value as nat) <= 32,
        decreases m,
    {
        let ghost m0 = m;
        height = height + 1;
        m = m >> log2;
        proof {
            assert(m0 >> log2 == m0 / (1u32 << log2)) by (bit_vector)
                requires
                    log2 <= 5,
            ;
            assert(m0 / branch_factor == 0 <==> m0 < branch_factor) by (nonlinear_arith)
                requires
                    branch_factor >= 2,
            ;
            if m0 < branch_factor {
                assert(tree_height(b, m0 as nat) == 1);
            } else {
                assert(tree_height(b, m0 as nat) == 1 + tree_height(b, (m0 / branch_factor) as nat));
            }
        }
    }
    height
}

/// `min(b^e, 2^32 + 1)`-style capped power: exact whenever the power fits
/// the inclusive `u32` value range plus one, and strictly above `2^32`
/// otherwise.
pub fn pow_capped(base: u32, exp: u32) -> (r: u64)
    requires
        2 <= base <= 32,
        exp <= 32,
    ensures
        pow(base as int, exp as nat) <= 0x100000000 ==> r == pow(base as int, exp as nat),
        pow(base as int, exp as nat) > 0x100000000 ==> r > 0x100000000,
        r <= 0x2000000000,
{
    let mut p: u64 = 1;
    let mut i: u32 = 0;
    proof {
        reveal(pow);
    }
    while i < exp
        invariant
            2 <= base <= 32,
            exp <= 32,
            0 <= i <= exp,
            p == pow(base as int, i as nat),
            p <= 0x100000000,
        decreases exp - i,
    {
        proof {
            assert(p * (base as u64) <= 0x2000000000) by (nonlinear_arith)
                requires
                    p <= 0x100000000,
                    base <= 32,
            ;
        }
        let next = p * (base as u64);
        proof {
            reveal(pow);
            assert(pow(base as int, (i + 1) as nat) == base * pow(base as int, i as nat));
            assert(p * (base as u64) == base * p) by (nonlinear_arith);
            assert(next == base * p);
            assert(next == pow(base as int, (i + 1) as nat));
        }
        i = i + 1;
        if next > 0x100000000 {
            proof {
                lemma_pow_positive(base as int, i as nat);
                if i < exp {
                    lemma_pow_strictly_increases(base as nat, i as nat, exp as nat);
                }
            }
            return next;
        }
        p = next;
    }
    p
}

/// The distinct parent indices (`v / b`) of the ascending values `vals`,
/// ascending.
pub open spec fn parents_of(vals: Seq<u32>, b: u32) -> Seq<u32>
    decreases vals.len(),
{
    if vals.len() == 0 {
        Seq::empty()
    } else {
        let p = vals[0] / b;
        let rest = parents_of(vals.skip(1), b);
        if rest.len() > 0 && rest[0] == p {
            rest
        } else {
            seq![p] + rest
        }
    }
}

/// The bitmask of the node with parent index `p`: bit `v % b` is set for
/// each value `v` of `vals` with `v / b == p`.
pub open spec fn mask_of(vals: Seq<u32>, b: u32, p: u32) -> u32
    decreases vals.len(),
{
    if vals.len() == 0 {
        0u32
    } else {
        let rest = mask_of(vals.skip(1), b, p);
        if vals[0] / b == p {
            (1u32 << (vals[0] % b)) | rest
        } else {
            rest
        }
    }
}

/// The nodes of one layer as the encoder appends them: one node per distinct
/// parent index, in descending parent order.
pub open spec fn layer_nodes(vals: Seq<u32>, b: u32) -> Seq<Node> {
    let ps = parents_of(vals, b);
    Seq::new(
        ps.len(),
        |j: int|
            Node {
                bits: mask_of(vals, b, ps[ps.len() - 1 - j]),
                parent_index: ps[ps.len() - 1 - j],
            },
    )
}

/// `parents_of` applied `k` times.
pub open spec fn iter_parents(vals: Seq<u32>, b: u32, k: nat) -> Seq<u32>
    decreases k,
{
    if k == 0 {
        vals
    } else {
        parents_of(iter_parents(vals, b, (k - 1) as nat), b)
    }
}

/// All nodes the encoder appends over `k` layers, from the deepest layer up.
pub open spec fn layers_concat(vals: Seq<u32>, b: u32, k: nat) -> Seq<Node>
    decreases k,
{
    if k == 0 {
        Seq::empty()
    } else {
        layer_nodes(vals, b) + layers_concat(parents_of(vals, b), b, (k - 1) as nat)
    }
}

/// The serialized bits of `ns`, each node `b` bits wide, first node first.
pub open spec fn nodes_bits(ns: Seq<Node>, b: u32) -> Seq<bool>
    decreases ns.len(),
{
    if ns.len() == 0 {
        Seq::empty()
    } else {
        nodes_bits(ns.drop_last(), b) + word_bits(ns.last().bits, b)
    }
}

/// The whole encoding of the ascending values `s` under branch factor `b`:
/// the header, then the built layers reversed into root-to-leaf order.
pub open spec fn encoded_bits(s: Seq<u32>, b: u32) -> Seq<bool> {
    if s.len() == 0 {
        word_bits(header_word(b, 0), 8)
    } else {
        let h = tree_height(b as nat, s.last() as nat);
        word_bits(header_word(b, h as u32), 8) + nodes_bits(
            layers_concat(s, b, h).reverse(),
            b,
        )
    }
}

/// The encoding packed into bytes.
pub open spec fn encoded_bytes(s: Seq<u32>, b: u32) -> Seq<u8> {
    bits_to_bytes(encoded_bits(s, b))
}

/// The shortest of the four candidate encodings, earlier branch factors
/// winning ties.
pub open spec fn best_encoding(s: Seq<u32>) -> Seq<u8> {
    let e2 = encoded_bytes(s, 2);
    let e4 = encoded_bytes(s, 4);
    let e8 = encoded_bytes(s, 8);
    let e32 = encoded_bytes(s, 32);
    if e2.len() <= e4.len() && e2.len() <= e8.len() && e2.len() <= e32.len() {
        e2
    } else if e4.len() <= e8.len() && e4.len() <= e32.len() {
        e4
    } else if e8.len() <= e32.len() {
        e8
    } else {
        e32
    }
}

proof fn lemma_or_zero(x: u32)
    ensures
        x | 0u32 == x,
        0u32 | x == x,
{
    assert(x | 0u32 == x && 0u32 | x == x) by (bit_vector);
}

/// A suffix of a sorted sequence is sorted.
proof fn lemma_sorted_skip(vals: Seq<u32>, i: int)
    requires
        sorted_strict(vals),
        0 <= i <= vals.len(),
    ensures
        sorted_strict(vals.skip(i)),
{
    assert forall|x: int, y: int|
        0 <= x < y < vals.skip(i).len() implies vals.skip(i)[x] < vals.skip(i)[y] by {
        assert(vals.skip(i)[x] == vals[x + i]);
        assert(vals.skip(i)[y] == vals[y + i]);
    }
}

/// The parents of a sorted sequence are sorted, and the first parent is the
/// parent of the first value.
pub proof fn lemma_parents_sorted(vals: Seq<u32>, b: u32)
    requires
        sorted_strict(vals),
        b >= 2,
    ensures
        sorted_strict(parents_of(vals, b)),
        vals.len() > 0 ==> parents_of(vals, b).len() >= 1 && parents_of(vals, b)[0] == vals[0]
            / b,
        vals.len() == 0 ==> parents_of(vals, b).len() == 0,
    decreases vals.len(),
{
    if vals.len() > 0 {
        let tail = vals.skip(1);
        lemma_sorted_skip(vals, 1);
        lemma_parents_sorted(tail, b);
        let p = vals[0] / b;
        let rest = parents_of(tail, b);
        if rest.len() > 0 {
            assert(tail[0] == vals[1]);
            lemma_div_is_ordered(vals[0] as int, vals[1] as int, b as int);
            assert(rest[0] >= p);
        }
        if rest.len() > 0 && rest[0] == p {
        } else {
            let ps = seq![p] + rest;
            assert forall|x: int, y: int| 0 <= x < y < ps.len() implies ps[x] < ps[y] by {
                if x == 0 {
                    assert(ps[y] == rest[y - 1]);
                    if y - 1 > 0 {
                        assert(rest[0] < rest[y - 1]);
                    }
                } else {
                    assert(ps[x] == rest[x - 1] && ps[y] == rest[y - 1]);
                }
            }
        }
    }
}

/// Values whose parents all exceed `p` contribute no bit to `p`'s mask.
proof fn lemma_mask_absent(vals: Seq<u32>, b: u32, p: u32)
    requires
        sorted_strict(vals),
        b >= 2,
        vals.len() > 0 ==> p < vals[0] / b,
    ensures
        mask_of(vals, b, p) == 0,
    decreases vals.len(),
{
    if vals.len() > 0 {
        let tail = vals.skip(1);
        lemma_sorted_skip(vals, 1);
        if tail.len() > 0 {
            assert(tail[0] == vals[1]);
            lemma_div_is_ordered(vals[0] as int, vals[1] as int, b as int);
        }
        lemma_mask_absent(tail, b, p);
    }
}

proof fn lemma_iter_parents_shift(vals: Seq<u32>, b: u32, k: nat)
    ensures
        iter_parents(parents_of(vals, b), b, k) == iter_parents(vals, b, k + 1),
    decreases k,
{
    if k == 0 {
        assert(iter_parents(parents_of(vals, b), b, 0) == parents_of(vals, b));
        assert(iter_parents(vals, b, 1) == parents_of(iter_parents(vals, b, 0), b));
    } else {
        lemma_iter_parents_shift(vals, b, (k - 1) as nat);
        assert(iter_parents(parents_of(vals, b), b, k) == parents_of(
            iter_parents(parents_of(vals, b), b, (k - 1) as nat),
            b,
        ));
        assert(iter_parents(vals, b, k + 1) == parents_of(iter_parents(vals, b, k), b));
    }
}

proof fn lemma_layers_concat_snoc(vals: Seq<u32>, b: u32, k: nat)
    ensures
        layers_concat(vals, b, k + 1) == layers_concat(vals, b, k) + layer_nodes(
            iter_parents(vals, b, k),
            b,
        ),
    decreases k,
{
    if k == 0 {
        assert(layers_concat(vals, b, 0) == Seq::<Node>::empty());
        assert(layers_concat(parents_of(vals, b), b, 0) == Seq::<Node>::empty());
        assert(layers_concat(vals, b, 1) == layer_nodes(vals, b) + Seq::<Node>::empty());
        assert(layers_concat(vals, b, 1) =~= layers_concat(vals, b, 0) + layer_nodes(vals, b));
    } else {
        lemma_layers_concat_snoc(parents_of(vals, b), b, (k - 1) as nat);
        lemma_iter_parents_shift(vals, b, (k - 1) as nat);
        assert(layer_nodes(vals, b) + (layers_concat(parents_of(vals, b), b, (k - 1) as nat)
            + layer_nodes(iter_parents(vals, b, k), b)) =~= (layer_nodes(vals, b)
            + layers_concat(parents_of(vals, b), b, (k - 1) as nat)) + layer_nodes(
            iter_parents(vals, b, k),
            b,
        ));
    }
}

/// Compute the nodes for one layer of the sparse bit set.
///
/// Groups the values of `values` (one tree layer's indices, ascending) into
/// fixed-width node bitmasks, appending the new nodes to `nodes` in
/// descending parent order, and returns the deduplicated set of parent
/// indices for the layer above.
pub fn create_layer(branch_factor: u32, values: &IntSet, nodes: &mut Vec<Node>) -> (next: IntSet)
    requires
        bf_valid(branch_factor),
        values.wf(),
    ensures
        next.wf(),
        next@ == parents_of(values@, branch_factor),
        final(nodes)@ == old(nodes)@ + layer_nodes(values@, branch_factor),
{
    let ghost vals = values@;
    let ghost b = branch_factor;
    let ghost nodes0 = old(nodes)@;
    let mut next = IntSet::empty();
    let n = values.len();
    let mut i: usize = n;
    let mut current: Option<Node> = None;
    proof {
        assert(vals.skip(n as int) =~= Seq::<u32>::empty());
    }
    while i > 0
        invariant
            bf_valid(b),
            b == branch_factor,
            values.wf(),
            vals == values@,
            n == vals.len(),
            0 <= i <= n,
            next.wf(),
            ({
                let suf = vals.skip(i as int);
                let ps = parents_of(suf, b);
                if suf.len() == 0 {
                    current is None && nodes@ == nodes0 && next@ == Seq::<u32>::empty()
                } else {
                    &&& current == Some(layer_nodes(suf, b).last())
                    &&& nodes@ == nodes0 + layer_nodes(suf, b).drop_last()
                    &&& next@ == ps.skip(1)
                }
            }),
        decreases i,
    {
        i = i - 1;
        let v = values.get(i);
        let parent_index = v / branch_factor;
        let ghost suf = vals.skip(i as int + 1);
        let ghost nsuf = vals.skip(i as int);
        proof {
            assert(nsuf[0] == vals[i as int]);
            assert(nsuf =~= seq![v] + suf);
            assert(nsuf.skip(1) =~= suf);
            lemma_sorted_skip(vals, i as int);
            lemma_sorted_skip(vals, i as int + 1);
            lemma_parents_sorted(nsuf, b);
            lemma_parents_sorted(suf, b);
            lemma_or_zero(1u32 << (v % b));
        }
        let ghost ps = parents_of(suf, b);
        let ghost nps = parents_of(nsuf, b);
        current = match current {
            None => {
                proof {
                    assert(suf.len() == 0);
                    assert(ps.len() == 0);
                    assert(nps =~= seq![parent_index]);
                    assert(mask_of(nsuf, b, parent_index) == (1u32 << (v % b)) | mask_of(
                        suf,
                        b,
                        parent_index,
                    ));
                    assert(mask_of(suf, b, parent_index) == 0);
                    assert(layer_nodes(nsuf, b).last() == Node {
                        bits: 1u32 << (v % b),
                        parent_index,
                    });
                    assert(layer_nodes(nsuf, b).drop_last() =~= Seq::<Node>::empty());
                    assert(nodes@ == nodes0 + layer_nodes(nsuf, b).drop_last()) by {
                        assert(nodes0 + Seq::<Node>::empty() =~= nodes0);
                    }
                    assert(next@ =~= nps.skip(1));
                }
                Some(Node { bits: 1u32 << (v % branch_factor), parent_index })
            },
            Some(node) => {
                if node.parent_index != parent_index {
                    let prev = node.parent_index;
                    proof {
                        assert(suf.len() > 0);
                        assert(prev == ps[0]);
                        assert(parent_index == nsuf[0] / b);
                        // ascending values give non-descending parents
                        assert(v < suf[0]);
                        lemma_div_is_ordered(v as int, suf[0] as int, b as int);
                        assert(parent_index < ps[0]);
                        assert(nps =~= seq![parent_index] + ps);
                        lemma_mask_absent(suf, b, parent_index);
                        // masks of finished parents are unchanged by v
                        assert(forall|q: u32|
                            q != parent_index ==> mask_of(nsuf, b, q) == mask_of(suf, b, q));
                    }
                    next.insert(prev);
                    nodes.push(node);
                    proof {
                        assert(next@ == nps.skip(1)) by {
                            if ps.len() == 1 {
                                assert(set_insert(ps.skip(1), prev) =~= seq![prev]);
                            } else {
                                assert(ps.skip(1)[0] == ps[1]);
                                assert(prev < ps[1]);
                                assert(set_insert(ps.skip(1), prev) == seq![prev] + ps.skip(1));
                            }
                            assert(seq![prev] + ps.skip(1) =~= ps);
                            assert(nps.skip(1) =~= ps);
                        }
                        assert(layer_nodes(nsuf, b).drop_last() =~= layer_nodes(suf, b));
                        assert(nodes@ == nodes0 + layer_nodes(nsuf, b).drop_last()) by {
                            assert(nodes0 + layer_nodes(suf, b).drop_last() + seq![
                                layer_nodes(suf, b).last(),
                            ] =~= nodes0 + layer_nodes(suf, b));
                        }
                        assert(layer_nodes(nsuf, b).last() == Node {
                            bits: 1u32 << (v % b),
                            parent_index,
                        }) by {
                            assert(mask_of(nsuf, b, parent_index) == (1u32 << (v % b)) | mask_of(
                                suf,
                                b,
                                parent_index,
                            ));
                        }
                    }
                    Some(Node { bits: 1u32 << (v % branch_factor), parent_index })
                } else {
                    proof {
                        assert(suf.len() > 0);
                        assert(parent_index == ps[0]);
                        assert(nps =~= ps);
                        assert(forall|q: u32|
                            q != parent_index ==> mask_of(nsuf, b, q) == mask_of(suf, b, q));
                        assert(mask_of(nsuf, b, parent_index) == (1u32 << (v % b)) | mask_of(
                            suf,
                            b,
                            parent_index,
                        ));
                        assert(layer_nodes(nsuf, b).drop_last() =~= layer_nodes(suf, b).drop_last());
                        assert(layer_nodes(nsuf, b).last() == Node {
                            bits: (1u32 << (v % b)) | node.bits,
                            parent_index,
                        });
                    }
                    Some(Node { bits: (1u32 << (v % branch_factor)) | node.bits, parent_index })
                }
            },
        };
    }
    proof {
        assert(vals.skip(0) =~= vals);
    }
    match current {
        Some(node) => {
            let prev = node.parent_index;
            next.insert(prev);
            nodes.push(node);
            proof {
                let ps = parents_of(vals, b);
                lemma_parents_sorted(vals, b);
                assert(next@ == ps) by {
                    if ps.len() == 1 {
                        assert(set_insert(ps.skip(1), prev) =~= seq![prev]);
                    } else {
                        assert(ps.skip(1)[0] == ps[1]);
                        assert(prev < ps[1]);
                        assert(set_insert(ps.skip(1), prev) == seq![prev] + ps.skip(1));
                    }
                    assert(seq![prev] + ps.skip(1) =~= ps);
                }
                assert(nodes@ =~= nodes0 + layer_nodes(vals, b)) by {
                    assert(nodes0 + layer_nodes(vals, b).drop_last() + seq![
                        layer_nodes(vals, b).last(),
                    ] =~= nodes0 + layer_nodes(vals, b));
                }
            }
            next
        },
        None => {
            proof {
                assert(vals.len() == 0);
                assert(layer_nodes(vals, b) =~= Seq::<Node>::empty());
                assert(nodes0 + layer_nodes(vals, b) =~= nodes0);
                assert(parents_of(vals, b) =~= Seq::<u32>::empty());
            }
            next
        },
    }
}

/// Encodes `set` as a sparse bit set with the given branch factor.
///
/// The builder walks the layers from the deepest up to the root, then
/// serializes the nodes in reverse (root-to-leaf) order after the header.
pub fn to_sparse_bit_set_internal(set: &IntSet, branch_factor: u32) -> (r: Vec<u8>)
    requires
        set.wf(),
        bf_valid(branch_factor),
        set@.len() > 0 ==> tree_height(branch_factor as nat, set@.last() as nat) <= 31,
    ensures
        r@ == encoded_bytes(set@, branch_factor),
{
    let ghost b = branch_factor;
    let ghost s = set@;
    let max_value = match set.last() {
        None => {
            let os = OutputBitStream::new(branch_factor, 0);
            proof {
                assert(os.bits() == encoded_bits(s, b));
            }
            return os.into_bytes();
        },
        Some(m) => m,
    };
    let height = tree_height_for(branch_factor, max_value);
    let ghost th = tree_height(b as nat, s.last() as nat);
    let mut os = OutputBitStream::new(branch_factor, height);
    let ghost hdr = word_bits(header_word(b, height as u32), 8);
    let mut nodes: Vec<Node> = Vec::new();
    let mut indices: IntSet = create_layer(branch_factor, set, &mut nodes);
    let mut level: u8 = 1;
    proof {
        assert(nodes@ =~= layers_concat(s, b, 1)) by {
            assert(layers_concat(parents_of(s, b), b, 0) == Seq::<Node>::empty());
            assert(Seq::<Node>::empty() + layer_nodes(s, b) =~= layer_nodes(s, b));
            assert(layer_nodes(s, b) + Seq::<Node>::empty() =~= layer_nodes(s, b));
        }
        assert(indices@ == iter_parents(s, b, 1)) by {
            lemma_iter_parents_shift(s, b, 0);
        }
    }
    while level < height
        invariant
            bf_valid(b),
            b == branch_factor,
            sorted_strict(s),
            1 <= level <= height,
            indices.wf(),
            indices@ == iter_parents(s, b, level as nat),
            nodes@ == layers_concat(s, b, level as nat),
        decreases height - level,
    {
        indices = create_layer(branch_factor, &indices, &mut nodes);
        proof {
            lemma_layers_concat_snoc(s, b, level as nat);
            lemma_iter_parents_shift(s, b, level as nat);
            assert(iter_parents(s, b, (level + 1) as nat) == parents_of(
                iter_parents(s, b, level as nat),
                b,
            ));
        }
        level = level + 1;
    }
    proof {
        assert(nodes@ == layers_concat(s, b, th));
    }
    let ghost all = layers_concat(s, b, th);
    let total = nodes.len();
    let mut j: usize = total;
    proof {
        assert(all.reverse().take(0) == Seq::<Node>::empty());
        assert(nodes_bits(Seq::<Node>::empty(), b) == Seq::<bool>::empty());
        assert(hdr + Seq::<bool>::empty() =~= hdr);
    }
    while j > 0
        invariant
            bf_valid(b),
            b == branch_factor,
            os.wf(),
            0 <= j <= total,
            total == nodes@.len(),
            nodes@ == all,
            os.bits() == hdr + nodes_bits(all.reverse().take(total - j), b),
        decreases j,
    {
        j = j - 1;
        let w = nodes[j].bits;
        os.write_node(w, branch_factor);
        proof {
            let c = total - j - 1;
            assert(all.reverse()[c] == all[total - 1 - c]);
            assert(all.reverse().take(c + 1).drop_last() =~= all.reverse().take(c));
            assert(all.reverse().take(c + 1).last() == all.reverse()[c]);
            assert(nodes_bits(all.reverse().take(c + 1), b) == nodes_bits(
                all.reverse().take(c),
                b,
            ) + word_bits(all[total - 1 - c].bits, b));
            assert((hdr + nodes_bits(all.reverse().take(c), b)) + word_bits(w, b) =~= hdr
                + nodes_bits(all.reverse().take(c + 1), b));
        }
    }
    proof {
        assert(all.reverse().take(total as int) =~= all.reverse());
        assert(os.bits() == encoded_bits(s, b));
    }
    os.into_bytes()
}

/// Encodes `set` with the given branch factor.
pub fn to_sparse_bit_set_with_bf(set: &IntSet, branch_factor: BranchFactor) -> (r: Vec<u8>)
    requires
        set.wf(),
        set@.len() > 0 ==> tree_height(
            branch_factor.spec_value() as nat,
            set@.last() as nat,
        ) <= 31,
    ensures
        r@ == encoded_bytes(set@, branch_factor.spec_value()),
{
    match branch_factor {
        BranchFactor::Two => to_sparse_bit_set_internal(set, 2),
        BranchFactor::Four => to_sparse_bit_set_internal(set, 4),
        BranchFactor::Eight => to_sparse_bit_set_internal(set, 8),
        BranchFactor::ThirtyTwo => to_sparse_bit_set_internal(set, 32),
    }
}

/// Encodes `set`, picking whichever of the four supported branch factors
/// gives the shortest output; ties go to the smaller branch factor.
pub fn to_sparse_bit_set(set: &IntSet) -> (r: Vec<u8>)
    requires
        set.wf(),
        set@.len() > 0 ==> set@.last() < 0x80000000,
    ensures
        r@ == best_encoding(set@),
        forall|b: u32| bf_valid(b) ==> r@.len() <= encoded_bytes(set@, b).len(),
{
    proof {
        if set@.len() > 0 {
            lemma_heights_fit(set@.last() as nat);
        }
    }
    let c2 = to_sparse_bit_set_internal(set, 2);
    let c4 = to_sparse_bit_set_internal(set, 4);
    let c8 = to_sparse_bit_set_internal(set, 8);
    let c32 = to_sparse_bit_set_internal(set, 32);
    if c2.len() <= c4.len() && c2.len() <= c8.len() && c2.len() <= c32.len() {
        c2
    } else if c4.len() <= c8.len() && c4.len() <= c32.len() {
        c4
    } else if c8.len() <= c32.len() {
        c8
    } else {
        c32
    }
}

/// What expanding children `j..b` of one pending node adds: the queue
/// entries for set bits above the leaf layer (in child order), the values
/// for set bits at the leaf layer, and whether any bit was set. `None` when
/// a computed value cannot fit a `u32`.
pub open spec fn children_rec(
    bits: Seq<bool>,
    pos: int,
    b: int,
    start: int,
    depth: int,
    h: int,
    j: int,
) -> Option<(Seq<NextNode>, Set<u32>, bool)>
    decreases b - j,
{
    if j >= b {
        Some((Seq::empty(), Set::empty(), false))
    } else {
        match children_rec(bits, pos, b, start, depth, h, j + 1) {
            None => None,
            Some(rest) => {
                if !bits[pos + j] {
                    Some(rest)
                } else if depth == h {
                    if start + j > u32::MAX {
                        None
                    } else {
                        Some((rest.0, rest.1.insert((start + j) as u32), true))
                    }
                } else {
                    let cs = start + j * pow(b, (h - depth) as nat);
                    if cs > u32::MAX {
                        None
                    } else {
                        Some(
                            (
                                seq![NextNode { start: cs as u32, depth: (depth + 1) as u32 }]
                                    + rest.0,
                                rest.1,
                                true,
                            ),
                        )
                    }
                }
            },
        }
    }
}

/// The breadth-first expansion of the pending-node queue: each step consumes
/// `b` bits for the front node; a node with no set bit fills its whole
/// subtree range. `None` on a short stream or a value outside `u32`.
pub open spec fn decode_rec(
    bits: Seq<bool>,
    pos: int,
    b: int,
    h: int,
    queue: Seq<NextNode>,
    acc: Set<u32>,
) -> Option<Set<u32>>
    decreases bits.len() - pos,
    when 2 <= b
{
    if queue.len() == 0 {
        Some(acc)
    } else if pos < 0 || pos + b > bits.len() {
        None
    } else {
        let node = queue[0];
        match children_rec(bits, pos, b, node.start as int, node.depth as int, h, 0) {
            None => None,
            Some(res) => {
                if res.2 {
                    decode_rec(bits, pos + b, b, h, queue.skip(1) + res.0, acc.union(res.1))
                } else {
                    let fill_end = node.start + pow(b, (h - node.depth + 1) as nat) - 1;
                    if fill_end > u32::MAX {
                        None
                    } else {
                        decode_rec(
                            bits,
                            pos + b,
                            b,
                            h,
                            queue.skip(1),
                            acc.union(range_set(node.start, fill_end as u32)),
                        )
                    }
                }
            },
        }
    }
}

/// The set a byte buffer decodes to, or `None` when it is no valid sparse
/// bit set: the header names the branch factor and height, height zero is
/// the empty set, and otherwise a breadth-first expansion starts at the root.
pub open spec fn decoded_set(bytes: Seq<u8>) -> Option<Set<u32>> {
    let bits = bytes_bits(bytes);
    if bytes.len() == 0 {
        None
    } else {
        let b = bf_of_code(field_val(bits, 0, 2)) as int;
        let h = field_val(bits, 2, 5);
        if h == 0 {
            Some(Set::<u32>::empty())
        } else {
            decode_rec(bits, 8, b, h, seq![NextNode { start: 0, depth: 1 }], Set::<u32>::empty())
        }
    }
}

/// A node none of whose bits are set contributes no entries and no values.
proof fn lemma_children_none_set(
    bits: Seq<bool>,
    pos: int,
    b: int,
    start: int,
    depth: int,
    h: int,
    j: int,
)
    ensures
        match children_rec(bits, pos, b, start, depth, h, j) {
            Some(res) => !res.2 ==> res.0 == Seq::<NextNode>::empty() && res.1 == Set::<
                u32,
            >::empty(),
            None => true,
        },
    decreases b - j,
{
    if j < b {
        lemma_children_none_set(bits, pos, b, start, depth, h, j + 1);
    }
}

/// The empty set encodes, under the selection of the best branch factor, as
/// exactly the single byte zero; and that byte decodes back to the empty
/// set.
pub proof fn lemma_empty_set_round_trip()
    ensures
        best_encoding(Seq::<u32>::empty()) == seq![0u8],
        decoded_set(seq![0u8]) == Some(Set::<u32>::empty()),
{
    let empty = Seq::<u32>::empty();
    assert(forall|i: u32| !(#[trigger] bit_of(0u32, i))) by (bit_vector);
    assert(header_word(2, 0) == 0) by {
        assert(0u32 | (0u32 << 2u32) == 0u32) by (bit_vector);
    }
    // each candidate is its eight header bits packed into one byte
    assert(encoded_bits(empty, 2).len() == 8);
    assert(encoded_bits(empty, 4).len() == 8);
    assert(encoded_bits(empty, 8).len() == 8);
    assert(encoded_bits(empty, 32).len() == 8);
    assert(encoded_bytes(empty, 2).len() == 1);
    assert(encoded_bytes(empty, 4).len() == 1);
    assert(encoded_bytes(empty, 8).len() == 1);
    assert(encoded_bytes(empty, 32).len() == 1);
    assert(best_encoding(empty) == encoded_bytes(empty, 2));
    let hbits = word_bits(0u32, 8);
    assert(forall|i: int| bit_val(hbits, i) == 0);
    assert(byte_at(hbits, 0) == 0);
    assert(encoded_bytes(empty, 2) =~= seq![0u8]);
    // decoding the zero byte: branch-factor code and height are both zero
    let bs = seq![0u8];
    let bits = bytes_bits(bs);
    assert(bits.len() == 8);
    assert(forall|i: u32| i < 8 ==> !(#[trigger] byte_bit(0u8, i))) by (bit_vector);
    assert(forall|i: int| 0 <= i < 8 ==> !bits[i]);
    reveal_with_fuel(field_val, 6);
    assert(field_val(bits, 2, 5) == 0);
    assert(decoded_set(bs) == Some(Set::<u32>::empty()));
}

/// The round trip for the empty set holds under every branch factor: its
/// encoding is the header alone, with height zero, and decodes back empty.
pub proof fn lemma_round_trip_empty(b: u32)
    requires
        bf_valid(b),
    ensures
        decoded_set(encoded_bytes(Seq::<u32>::empty(), b)) == Some(Set::<u32>::empty()),
{
    let empty = Seq::<u32>::empty();
    let ebits = encoded_bits(empty, b);
    let c = bf_code(b);
    assert(c | (0u32 << 2u32) == c) by (bit_vector)
        requires
            c <= 3,
    ;
    assert(ebits == word_bits(c, 8));
    let bytes = encoded_bytes(empty, b);
    assert(bytes.len() == 1);
    let bbits = bytes_bits(bytes);
    assert forall|i: int| 0 <= i < 8 implies bbits.len() >= 8 && bbits[i] == bit_of(
        c,
        i as u32,
    ) by {
        crate::bits::lemma_bits_bytes_inverse(ebits, i);
    }
    assert(bit_of(c, 0) == (c == 1 || c == 3) && bit_of(c, 1) == (c >= 2) && !bit_of(c, 2)
        && !bit_of(c, 3) && !bit_of(c, 4) && !bit_of(c, 5) && !bit_of(c, 6)) by (bit_vector)
        requires
            c <= 3,
    ;
    reveal_with_fuel(field_val, 8);
    assert(field_val(bbits, 0, 2) == c);
    assert(field_val(bbits, 2, 5) == 0);
    assert(decoded_set(bytes) == Some(Set::<u32>::empty()));
}

/// All-zero children contribute nothing and report no set bit.
proof fn lemma_children_all_zero(
    bits: Seq<bool>,
    pos: int,
    b: int,
    start: int,
    depth: int,
    h: int,
    j: int,
)
    requires
        forall|k: int| j <= k < b ==> !(#[trigger] bits[pos + k]),
    ensures
        children_rec(bits, pos, b, start, depth, h, j) == Some(
            (Seq::<NextNode>::empty(), Set::<u32>::empty(), false),
        ),
    decreases b - j,
{
    if j < b {
        lemma_children_all_zero(bits, pos, b, start, depth, h, j + 1);
    }
}

/// The fully-filled shortcut: a pending node none of whose `b` bits are set
/// expands to exactly the inclusive integer range its subtree covers,
/// `[start, start + b^(h - depth + 1) - 1]`, and enqueues no children.
pub proof fn lemma_all_zero_node_fills(
    bits: Seq<bool>,
    pos: int,
    b: int,
    h: int,
    queue: Seq<NextNode>,
    acc: Set<u32>,
)
    requires
        2 <= b,
        0 <= pos,
        pos + b <= bits.len(),
        queue.len() > 0,
        forall|j: int| 0 <= j < b ==> !(#[trigger] bits[pos + j]),
        1 <= queue[0].depth <= h,
        queue[0].start + pow(b, (h - queue[0].depth + 1) as nat) - 1 <= u32::MAX,
    ensures
        decode_rec(bits, pos, b, h, queue, acc) == decode_rec(
            bits,
            pos + b,
            b,
            h,
            queue.skip(1),
            acc.union(
                range_set(
                    queue[0].start,
                    (queue[0].start + pow(b, (h - queue[0].depth + 1) as nat) - 1) as u32,
                ),
            ),
        ),
{
    let node = queue[0];
    lemma_children_all_zero(bits, pos, b, node.start as int, node.depth as int, h, 0);
}

/// When every value is below the branch factor there is a single parent,
/// index zero.
proof fn lemma_parents_single(s: Seq<u32>, b: u32)
    requires
        sorted_strict(s),
        b >= 2,
        s.len() > 0,
        forall|k: int| 0 <= k < s.len() ==> s[k] < b,
    ensures
        parents_of(s, b) =~= seq![0u32],
    decreases s.len(),
{
    assert(s[0] / b == 0) by (nonlinear_arith)
        requires
            0 <= s[0] < b,
    ;
    let tail = s.skip(1);
    lemma_sorted_skip(s, 1);
    if tail.len() > 0 {
        assert(forall|k: int| 0 <= k < tail.len() ==> tail[k] == s[k + 1] && tail[k] < b);
        lemma_parents_single(tail, b);
        assert(parents_of(tail, b)[0] == 0);
    } else {
        assert(parents_of(tail, b).len() == 0);
        assert(parents_of(s, b) == seq![0u32] + parents_of(tail, b));
        assert(seq![0u32] + parents_of(tail, b) =~= seq![0u32]);
    }
}

/// At a single layer, bit `j` of the one node's mask says whether `j` is in
/// the set.
proof fn lemma_mask_bits(s: Seq<u32>, b: u32, j: u32)
    requires
        sorted_strict(s),
        bf_valid(b),
        j < b,
        forall|k: int| 0 <= k < s.len() ==> s[k] < b,
    ensures
        bit_of(mask_of(s, b, 0), j) <==> s.contains(j),
    decreases s.len(),
{
    if s.len() == 0 {
        assert(!bit_of(0u32, j)) by (bit_vector);
    } else {
        let v = s[0];
        assert(v / b == 0 && v % b == v) by (nonlinear_arith)
            requires
                0 <= v < b,
        ;
        let tail = s.skip(1);
        lemma_sorted_skip(s, 1);
        assert(forall|k: int| 0 <= k < tail.len() ==> tail[k] == s[k + 1] && tail[k] < b);
        lemma_mask_bits(tail, b, j);
        let rest = mask_of(tail, b, 0);
        assert(mask_of(s, b, 0) == (1u32 << v) | rest);
        assert(bit_of((1u32 << v) | rest, j) <==> (v == j || bit_of(rest, j))) by (bit_vector)
            requires
                v < 32,
                j < 32,
        ;
        assert(s.contains(j) <==> (v == j || tail.contains(j))) by {
            if s.contains(j) {
                let i = choose|i: int| 0 <= i < s.len() && s[i] == j;
                if i > 0 {
                    assert(tail[i - 1] == j);
                }
            }
            if tail.contains(j) {
                let i = choose|i: int| 0 <= i < tail.len() && tail[i] == j;
                assert(s[i + 1] == j);
            }
            if v == j {
                assert(s[0] == j);
            }
        }
    }
}

/// At the leaf layer, expanding children `j..b` of a node collects exactly
/// the values `start + jj` for the set bits `jj`, and enqueues nothing.
proof fn lemma_children_leaf(bits: Seq<bool>, pos: int, b: int, start: int, h: int, j: int)
    requires
        0 <= j <= b,
        0 <= start,
        start + b <= 0x100000000,
    ensures
        children_rec(bits, pos, b, start, h, h, j) == Some(
            (
                Seq::<NextNode>::empty(),
                Set::new(
                    |x: u32|
                        exists|jj: int|
                            j <= jj < b && #[trigger] bits[pos + jj] && x == start + jj,
                ),
                exists|jj: int| j <= jj < b && #[trigger] bits[pos + jj],
            ),
        ),
    decreases b - j,
{
    let part = Set::new(
        |x: u32| exists|jj: int| j <= jj < b && #[trigger] bits[pos + jj] && x == start + jj,
    );
    if j >= b {
        assert(part =~= Set::<u32>::empty());
        assert(!(exists|jj: int| j <= jj < b && #[trigger] bits[pos + jj]));
    } else {
        lemma_children_leaf(bits, pos, b, start, h, j + 1);
        let rest = Set::new(
            |x: u32|
                exists|jj: int| j + 1 <= jj < b && #[trigger] bits[pos + jj] && x == start + jj,
        );
        if bits[pos + j] {
            assert(part =~= rest.insert((start + j) as u32)) by {
                assert forall|x: u32| part.contains(x) implies rest.insert(
                    (start + j) as u32,
                ).contains(x) by {
                    let jj = choose|jj: int|
                        j <= jj < b && #[trigger] bits[pos + jj] && x == start + jj;
                    if jj > j {
                        assert(rest.contains(x));
                    }
                }
                assert forall|x: u32| rest.insert((start + j) as u32).contains(x) implies part
                    .contains(x) by {
                    if rest.contains(x) {
                        let jj = choose|jj: int|
                            j + 1 <= jj < b && #[trigger] bits[pos + jj] && x == start + jj;
                        assert(j <= jj < b && bits[pos + jj] && x == start + jj);
                    } else {
                        assert(bits[pos + j] && (start + j) as u32 == start + j);
                    }
                }
            }
            assert(exists|jj: int| j <= jj < b && #[trigger] bits[pos + jj]) by {
                assert(bits[pos + j]);
            }
        } else {
            assert(part =~= rest) by {
                assert forall|x: u32| part.contains(x) implies rest.contains(x) by {
                    let jj = choose|jj: int|
                        j <= jj < b && #[trigger] bits[pos + jj] && x == start + jj;
                    assert(jj != j);
                }
                assert forall|x: u32| rest.contains(x) implies part.contains(x) by {
                    let jj = choose|jj: int|
                        j + 1 <= jj < b && #[trigger] bits[pos + jj] && x == start + jj;
                    assert(j <= jj < b && bits[pos + jj] && x == start + jj);
                }
            }
            assert((exists|jj: int| j <= jj < b && #[trigger] bits[pos + jj]) <==> (exists|
                jj: int,
            | j + 1 <= jj < b && #[trigger] bits[pos + jj])) by {
                if exists|jj: int| j <= jj < b && #[trigger] bits[pos + jj] {
                    let jj = choose|jj: int| j <= jj < b && #[trigger] bits[pos + jj];
                    assert(jj != j);
                    assert(j + 1 <= jj < b && bits[pos + jj]);
                }
            }
        }
    }
}

/// The round trip for single-layer trees: a non-empty set whose largest
/// value is below the branch factor decodes from its own encoding.
pub proof fn lemma_round_trip_height_one(s: Seq<u32>, b: u32)
    requires
        sorted_strict(s),
        bf_valid(b),
        s.len() > 0,
        s.last() < b,
    ensures
        decoded_set(encoded_bytes(s, b)) == Some(s.to_set()),
{
    assert forall|k: int| 0 <= k < s.len() implies s[k] <= s.last() && s[k] < b by {
        if k < s.len() - 1 {
            assert(s[k] < s[s.len() - 1]);
        }
    }
    let h = tree_height(b as nat, s.last() as nat);
    assert(h == 1);
    lemma_parents_single(s, b);
    let mask = mask_of(s, b, 0);
    let node = Node { bits: mask, parent_index: 0 };
    let ns = seq![node];
    assert(layer_nodes(s, b) =~= ns);
    assert(layers_concat(s, b, 1) =~= ns) by {
        assert(layers_concat(parents_of(s, b), b, 0) == Seq::<Node>::empty());
        assert(layer_nodes(s, b) + Seq::<Node>::empty() =~= layer_nodes(s, b));
    }
    assert(ns.reverse() =~= ns);
    assert(nodes_bits(ns, b) =~= word_bits(mask, b)) by {
        assert(ns.drop_last() =~= Seq::<Node>::empty());
        assert(ns.last() == node);
        assert(nodes_bits(Seq::<Node>::empty(), b) == Seq::<bool>::empty());
        assert(Seq::<bool>::empty() + word_bits(mask, b) =~= word_bits(mask, b));
    }
    let w = header_word(b, 1);
    let ebits = encoded_bits(s, b);
    assert(ebits =~= word_bits(w, 8) + word_bits(mask, b));
    assert(ebits.len() == 8 + b);
    let bytes = encoded_bytes(s, b);
    let bbits = bytes_bits(bytes);
    assert forall|i: int| 0 <= i < ebits.len() implies bbits.len() >= ebits.len() && bbits[i]
        == ebits[i] by {
        crate::bits::lemma_bits_bytes_inverse(ebits, i);
    }
    assert(bytes.len() >= 1);
    // the header reads back as this branch factor and height one
    assert(bf_code(b) | (1u32 << 2u32) == bf_code(b) + 4 && bf_code(b) + 4 < 256) by (bit_vector)
        requires
            bf_code(b) <= 3,
    ;
    let c = bf_code(b);
    assert(bit_of((c + 4) as u32, 0) == (c == 1 || c == 3) && bit_of((c + 4) as u32, 1) == (c
        >= 2) && bit_of((c + 4) as u32, 2) && !bit_of((c + 4) as u32, 3) && !bit_of(
        (c + 4) as u32,
        4,
    ) && !bit_of((c + 4) as u32, 5) && !bit_of((c + 4) as u32, 6)) by (bit_vector)
        requires
            c <= 3,
    ;
    reveal_with_fuel(field_val, 8);
    assert(field_val(bbits, 0, 2) == c);
    assert(bf_of_code(field_val(bbits, 0, 2)) == b);
    assert(field_val(bbits, 2, 5) == 1);
    // one breadth-first step over the single leaf node
    let q = seq![NextNode { start: 0, depth: 1 }];
    lemma_children_leaf(bbits, 8, b as int, 0, 1, 0);
    let vals = Set::new(
        |x: u32| exists|jj: int| 0 <= jj < b && #[trigger] bbits[8 + jj] && x == 0 + jj,
    );
    assert forall|jj: int| 0 <= jj < b implies #[trigger] bbits[8 + jj] == bit_of(
        mask,
        jj as u32,
    ) by {
        assert(ebits[8 + jj] == word_bits(mask, b)[jj]);
    }
    assert forall|jj: u32| jj < b implies bit_of(mask, jj) == s.contains(jj) by {
        lemma_mask_bits(s, b, jj);
    }
    assert(vals =~= s.to_set()) by {
        assert forall|x: u32| vals.contains(x) implies s.to_set().contains(x) by {
            let jj = choose|jj: int| 0 <= jj < b && #[trigger] bbits[8 + jj] && x == 0 + jj;
            assert(bit_of(mask, jj as u32));
            assert(s.contains(jj as u32));
        }
        assert forall|x: u32| s.to_set().contains(x) implies vals.contains(x) by {
            assert(s.contains(x));
            let i = choose|i: int| 0 <= i < s.len() && s[i] == x;
            assert(x < b);
            assert(bit_of(mask, x));
            assert(bbits[8 + x] && x == 0 + x);
        }
    }
    assert(exists|jj: int| 0 <= jj < b && #[trigger] bbits[8 + jj]) by {
        assert(s.contains(s[0]));
        assert(bit_of(mask, s[0]));
        assert(bbits[8 + s[0]]);
    }
    assert(q.skip(1) + Seq::<NextNode>::empty() =~= Seq::<NextNode>::empty());
    assert(Set::<u32>::empty().union(vals) =~= vals);
    assert(decode_rec(bbits, 8, b as int, 1, q, Set::<u32>::empty()) == decode_rec(
        bbits,
        8 + b as int,
        b as int,
        1,
        q.skip(1) + Seq::<NextNode>::empty(),
        Set::<u32>::empty().union(vals),
    ));
    assert(decode_rec(
        bbits,
        8 + b as int,
        b as int,
        1,
        Seq::<NextNode>::empty(),
        vals,
    ) == Some(vals));
    assert(decoded_set(bytes) == Some(vals));
}

/// Truncation fails closed for single-layer trees: decoding any strict
/// prefix of the encoding of a non-empty set whose largest value is below
/// the branch factor is an error, never a partially-correct set.
pub proof fn lemma_truncation_fails_height_one(s: Seq<u32>, b: u32, k: int)
    requires
        sorted_strict(s),
        bf_valid(b),
        s.len() > 0,
        s.last() < b,
        0 <= k < encoded_bytes(s, b).len(),
    ensures
        decoded_set(encoded_bytes(s, b).take(k)) is None,
{
    if k > 0 {
        assert forall|j: int| 0 <= j < s.len() implies s[j] <= s.last() by {
            if j < s.len() - 1 {
                assert(s[j] < s[s.len() - 1]);
            }
        }
        let h = tree_height(b as nat, s.last() as nat);
        assert(h == 1);
        let bytes = encoded_bytes(s, b);
        let prefix = bytes.take(k);
        let bits = bytes_bits(bytes);
        let pbits = bytes_bits(prefix);
        assert(pbits.len() == 8 * k);
        assert forall|i: int| 0 <= i < 8 * k implies pbits[i] == bits[i] by {
            assert(prefix[i / 8] == bytes[i / 8]);
        }
        // the prefix still holds the whole header byte, so the same branch
        // factor and height are read back
        lemma_round_trip_header(s, b);
        assert(encoded_bits(s, b).len() == 8 + b);
        assert forall|i: int| 0 <= i < 8 implies bits[i] == encoded_bits(s, b)[i] by {
            crate::bits::lemma_bits_bytes_inverse(encoded_bits(s, b), i);
        }
        reveal_with_fuel(field_val, 8);
        assert(field_val(pbits, 0, 2) == field_val(bits, 0, 2));
        assert(field_val(pbits, 2, 5) == field_val(bits, 2, 5));
        assert(bf_of_code(field_val(pbits, 0, 2)) == b);
        assert(field_val(pbits, 2, 5) == 1);
        // too few bits remain for the root node
        assert(bytes.len() == (8 + b + 7) / 8);
        assert(8 * k <= 8 * (bytes.len() - 1) < 8 + b);
        assert(decode_rec(
            pbits,
            8,
            b as int,
            1,
            seq![NextNode { start: 0, depth: 1 }],
            Set::<u32>::empty(),
        ) is None);
    }
}

/// The header of an encoding reads back as the branch factor and height it
/// was written with.
proof fn lemma_round_trip_header(s: Seq<u32>, b: u32)
    requires
        sorted_strict(s),
        bf_valid(b),
        s.len() > 0,
        s.last() < b,
    ensures
        bf_of_code(field_val(bytes_bits(encoded_bytes(s, b)), 0, 2)) == b,
        field_val(bytes_bits(encoded_bytes(s, b)), 2, 5) == 1,
        encoded_bits(s, b).len() == 8 + b,
{
    assert forall|j: int| 0 <= j < s.len() implies s[j] <= s.last() && s[j] < b by {
        if j < s.len() - 1 {
            assert(s[j] < s[s.len() - 1]);
        }
    }
    let h = tree_height(b as nat, s.last() as nat);
    assert(h == 1);
    lemma_parents_single(s, b);
    let mask = mask_of(s, b, 0);
    let node = Node { bits: mask, parent_index: 0 };
    let ns = seq![node];
    assert(layer_nodes(s, b) =~= ns);
    assert(layers_concat(s, b, 1) =~= ns) by {
        assert(layers_concat(parents_of(s, b), b, 0) == Seq::<Node>::empty());
        assert(layer_nodes(s, b) + Seq::<Node>::empty() =~= layer_nodes(s, b));
    }
    assert(ns.reverse() =~= ns);
    assert(nodes_bits(ns, b) =~= word_bits(mask, b)) by {
        assert(ns.drop_last() =~= Seq::<Node>::empty());
        assert(ns.last() == node);
        assert(nodes_bits(Seq::<Node>::empty(), b) == Seq::<bool>::empty());
        assert(Seq::<bool>::empty() + word_bits(mask, b) =~= word_bits(mask, b));
    }
    let w = header_word(b, 1);
    let ebits = encoded_bits(s, b);
    assert(ebits =~= word_bits(w, 8) + word_bits(mask, b));
    assert(ebits.len() == 8 + b);
    assert forall|i: int| 0 <= i < 8 implies ebits[i] == bit_of(w, i as u32) by {
        assert(ebits[i] == (word_bits(w, 8) + nodes_bits(
            layers_concat(s, b, 1).reverse(),
            b,
        ))[i]);
    }
    let bbits = bytes_bits(encoded_bytes(s, b));
    assert forall|i: int| 0 <= i < 8 implies bbits[i] == bit_of(w, i as u32) by {
        crate::bits::lemma_bits_bytes_inverse(ebits, i);
    }
    assert(bf_code(b) | (1u32 << 2u32) == bf_code(b) + 4 && bf_code(b) + 4 < 256) by (bit_vector)
        requires
            bf_code(b) <= 3,
    ;
    let c = bf_code(b);
    assert(bit_of((c + 4) as u32, 0) == (c == 1 || c == 3) && bit_of((c + 4) as u32, 1) == (c
        >= 2) && bit_of((c + 4) as u32, 2) && !bit_of((c + 4) as u32, 3) && !bit_of(
        (c + 4) as u32,
        4,
    ) && !bit_of((c + 4) as u32, 5) && !bit_of((c + 4) as u32, 6)) by (bit_vector)
        requires
            c <= 3,
    ;
    reveal_with_fuel(field_val, 8);
    assert(field_val(bbits, 0, 2) == c);
    assert(field_val(bbits, 2, 5) == 1);
}

/// Decodes a sparse bit set buffer back into the set of integers it
/// represents, by breadth-first traversal over a queue of pending nodes.
/// Fails on a stream too short for a required read, or one whose traversal
/// steps outside the `u32` range.
pub fn from_sparse_bit_set(data: &[u8]) -> (r: Result<IntSet, DecodingError>)
    ensures
        match r {
            Ok(s) => s.wf() && decoded_set(data@) == Some(s@.to_set()),
            Err(e) => decoded_set(data@) is None,
        },
{
    let ghost bits = bytes_bits(data@);
    let mut stream = InputBitStream::from(data);
    let branch_factor = match stream.read_branch_factor() {
        None => {
            proof {
                assert(data@.len() == 0);
            }
            return Err(DecodingError());
        },
        Some(x) => x,
    };
    proof {
        assert(bits.len() >= 2);
        assert(data@.len() >= 1);
        assert(bf_valid(branch_factor));
    }
    let height8 = match stream.read_height() {
        None => {
            proof {
                assert(bits.len() == data@.len() * 8 >= 8);
                assert(false);
            }
            return Err(DecodingError());
        },
        Some(x) => x,
    };
    let mut out = IntSet::empty();
    if height8 == 0 {
        proof {
            assert(decoded_set(data@) == Some(Set::<u32>::empty()));
            assert(out@.to_set() =~= Set::<u32>::empty());
        }
        return Ok(out);
    }
    proof {
        assert(stream.pos() == 7 < bits.len());
    }
    stream.skip_bit();
    let height: u32 = height8 as u32;
    let ghost b = branch_factor as int;
    let ghost h = height as int;
    let mut queue: VecDeque<NextNode> = VecDeque::new();
    queue.push_back(NextNode { start: 0, depth: 1 });
    let ghost target = decode_rec(
        bits,
        8,
        b,
        h,
        seq![NextNode { start: 0, depth: 1 }],
        Set::<u32>::empty(),
    );
    proof {
        assert(queue@ =~= seq![NextNode { start: 0, depth: 1 }]);
        assert(decoded_set(data@) == target);
        assert(out@.to_set() =~= Set::<u32>::empty());
    }
    while queue.len() > 0
        invariant
            out.wf(),
            stream.wf(),
            stream.stream() == bits,
            bits == bytes_bits(data@),
            bf_valid(branch_factor),
            b == branch_factor as int,
            1 <= h <= 31,
            h == height as int,
            8 <= stream.pos() <= bits.len(),
            forall|k: int| 0 <= k < queue@.len() ==> 1 <= (#[trigger] queue@[k]).depth <= h,
            decoded_set(data@) == target,
            target == decode_rec(bits, stream.pos(), b, h, queue@, out@.to_set()),
        decreases bits.len() - stream.pos(),
    {
        let ghost q_before = queue@;
        let nd = match queue.pop_front() {
            Some(x) => x,
            None => {
                proof {
                    assert(false);
                }
                return Err(DecodingError());
            },
        };
        let ghost q_rest = queue@;
        let ghost pos0 = stream.pos();
        let ghost out0 = out@.to_set();
        let ghost start = nd.start as int;
        let ghost depth = nd.depth as int;
        proof {
            assert(q_before =~= seq![nd] + q_rest);
            assert(target == decode_rec(bits, pos0, b, h, q_before, out0));
            assert(q_before.len() > 0);
            assert(1 <= nd.depth <= h) by {
                assert(q_before[0] == nd);
            }
            assert(forall|k: int| 0 <= k < q_rest.len() ==> 1 <= (#[trigger] q_rest[k]).depth <= h)
                by {
                assert(forall|k: int|
                    0 <= k < q_rest.len() ==> q_rest[k] == q_before[k + 1]);
            }
        }
        let mut has_a_one = false;
        let mut index: u32 = 0;
        let ghost mut gq: Seq<NextNode> = Seq::empty();
        let ghost mut gv: Set<u32> = Set::empty();
        proof {
            assert(queue@ =~= q_rest + gq);
            assert(out@.to_set() =~= out0.union(gv));
        }
        while index < branch_factor
            invariant
                out.wf(),
                stream.wf(),
                stream.stream() == bits,
                bits == bytes_bits(data@),
                bf_valid(branch_factor),
                b == branch_factor as int,
                1 <= h <= 31,
                h == height as int,
                1 <= nd.depth <= h,
                start == nd.start as int,
                depth == nd.depth as int,
                0 <= index <= branch_factor,
                8 <= pos0,
                stream.pos() == pos0 + index,
                pos0 + index <= bits.len(),
                queue@ == q_rest + gq,
                out@.to_set() == out0.union(gv),
                forall|k: int| 0 <= k < queue@.len() ==> 1 <= (#[trigger] queue@[k]).depth <= h,
                decoded_set(data@) == target,
                target == decode_rec(bits, pos0, b, h, seq![nd] + q_rest, out0),
                ({
                    let whole = children_rec(bits, pos0, b, start, depth, h, 0);
                    match children_rec(bits, pos0, b, start, depth, h, index as int) {
                        None => whole is None,
                        Some(rest) => whole == Some(
                            (gq + rest.0, gv.union(rest.1), has_a_one || rest.2),
                        ),
                    }
                }),
            decreases branch_factor - index,
        {
            let ghost q_full = seq![nd] + q_rest;
            let bit = match stream.read_bit() {
                None => {
                    proof {
                        assert(pos0 + index >= bits.len());
                        assert(pos0 + b > bits.len());
                        assert(q_full.len() > 0);
                        assert(decode_rec(bits, pos0, b, h, q_full, out0) is None);
                    }
                    return Err(DecodingError());
                },
                Some(x) => x,
            };
            proof {
                assert(bit == bits[pos0 + index]);
            }
            let ghost ci = index as int;
            let ghost crest = children_rec(bits, pos0, b, start, depth, h, ci + 1);
            let ghost gq0 = gq;
            let ghost gv0 = gv;
            let ghost has0 = has_a_one;
            if bit {
                has_a_one = true;
                if nd.depth == height {
                    let sum = nd.start as u64 + index as u64;
                    if sum > 0xffffffffu64 {
                        proof {
                            assert(children_rec(bits, pos0, b, start, depth, h, ci) is None);
                            assert(children_rec(bits, pos0, b, start, depth, h, 0) is None);
                            assert(q_full.len() > 0);
                            assert(decode_rec(bits, pos0, b, h, q_full, out0) is None);
                        }
                        return Err(DecodingError());
                    }
                    let v = sum as u32;
                    out.insert(v);
                    proof {
                        gv = gv0.insert(v);
                        assert(out@.to_set() =~= out0.union(gv));
                        assert(children_rec(bits, pos0, b, start, depth, h, ci)
                            == match crest {
                            None => None::<(Seq<NextNode>, Set<u32>, bool)>,
                            Some(r) => Some((r.0, r.1.insert(v), true)),
                        });
                        if crest is Some {
                            let r = crest->Some_0;
                            assert(gv0.union(r.1.insert(v)) =~= gv.union(r.1));
                        }
                    }
                } else {
                    let exp = height - nd.depth;
                    let p = pow_capped(branch_factor, exp);
                    let ghost pw = pow(b, (h - depth) as nat);
                    proof {
                        assert(exp as nat == (h - depth) as nat);
                        assert((index as u64) * p <= 31 * 0x2000000000) by (nonlinear_arith)
                            requires
                                index <= 31,
                                0 <= p <= 0x2000000000,
                        ;
                        lemma_pow_positive(b, (h - depth) as nat);
                    }
                    let cs = nd.start as u64 + (index as u64) * p;
                    let ghost cs_spec = start + ci * pw;
                    proof {
                        if pw <= 0x100000000 {
                            assert(p == pw);
                            assert(cs == cs_spec);
                        } else {
                            if index == 0 {
                                assert((index as u64) * p == 0) by (nonlinear_arith)
                                    requires
                                        index == 0,
                                ;
                                assert(ci * pw == 0) by (nonlinear_arith)
                                    requires
                                        ci == 0,
                                ;
                                assert(cs == start && cs_spec == start);
                            } else {
                                assert(cs >= p > 0x100000000) by (nonlinear_arith)
                                    requires
                                        index >= 1,
                                        p > 0x100000000,
                                        cs == nd.start + index * p,
                                ;
                                assert(cs_spec >= pw > 0x100000000) by (nonlinear_arith)
                                    requires
                                        ci >= 1,
                                        pw > 0x100000000,
                                        start >= 0,
                                        cs_spec == start + ci * pw,
                                ;
                            }
                        }
                        assert(cs > 0xffffffff <==> cs_spec > 0xffffffff);
                    }
                    if cs > 0xffffffffu64 {
                        proof {
                            assert(children_rec(bits, pos0, b, start, depth, h, ci) is None);
                            assert(children_rec(bits, pos0, b, start, depth, h, 0) is None);
                            assert(q_full.len() > 0);
                            assert(decode_rec(bits, pos0, b, h, q_full, out0) is None);
                        }
                        return Err(DecodingError());
                    }
                    proof {
                        assert(cs == cs_spec);
                    }
                    let entry = NextNode { start: cs as u32, depth: nd.depth + 1 };
                    queue.push_back(entry);
                    proof {
                        gq = gq0.push(entry);
                        assert(queue@ =~= q_rest + gq);
                        assert(children_rec(bits, pos0, b, start, depth, h, ci)
                            == match crest {
                            None => None::<(Seq<NextNode>, Set<u32>, bool)>,
                            Some(r) => Some((seq![entry] + r.0, r.1, true)),
                        });
                        if crest is Some {
                            let r = crest->Some_0;
                            assert(gq0 + (seq![entry] + r.0) =~= gq + r.0);
                        }
                    }
                }
            } else {
                proof {
                    assert(children_rec(bits, pos0, b, start, depth, h, ci) == crest);
                }
            }
            index = index + 1;
        }
        // all child bits of this node are consumed
        let ghost q_full = seq![nd] + q_rest;
        proof {
            assert(children_rec(bits, pos0, b, start, depth, h, b) == Some(
                (Seq::<NextNode>::empty(), Set::<u32>::empty(), false),
            ));
            let whole = children_rec(bits, pos0, b, start, depth, h, 0);
            assert(whole is Some);
            assert(gq + Seq::<NextNode>::empty() =~= gq);
            assert(gv.union(Set::<u32>::empty()) =~= gv);
            assert(whole == Some((gq, gv, has_a_one)));
            assert(q_full.len() > 0 && q_full[0] == nd);
            assert(pos0 + b <= bits.len());
        }
        if !has_a_one {
            // no set bit: this node fills its whole subtree range
            proof {
                lemma_children_none_set(bits, pos0, b, start, depth, h, 0);
                assert(gq =~= Seq::<NextNode>::empty());
                assert(gv =~= Set::<u32>::empty());
            }
            let exp = height - nd.depth + 1;
            let p = pow_capped(branch_factor, exp);
            let ghost pw = pow(b, (h - depth + 1) as nat);
            proof {
                assert(exp as nat == (h - depth + 1) as nat);
                lemma_pow_positive(b, (h - depth + 1) as nat);
            }
            let end64 = nd.start as u64 + p - 1;
            let ghost fe = start + pw - 1;
            proof {
                if pw <= 0x100000000 {
                    assert(p == pw);
                    assert(end64 == fe);
                } else {
                    assert(end64 >= p - 1 > 0xffffffff);
                    assert(fe >= pw - 1 > 0xffffffff);
                }
                assert(end64 > 0xffffffff <==> fe > 0xffffffff);
            }
            if end64 > 0xffffffffu64 {
                proof {
                    assert(decode_rec(bits, pos0, b, h, q_full, out0) is None);
                }
                return Err(DecodingError());
            }
            proof {
                assert(end64 == fe);
            }
            out.insert_range(nd.start, end64 as u32);
            proof {
                assert(q_full.skip(1) =~= q_rest);
                assert(queue@ =~= q_rest);
                assert(out@.to_set() == out0.union(range_set(nd.start, end64 as u32)));
                assert(decode_rec(bits, pos0, b, h, q_full, out0) == decode_rec(
                    bits,
                    pos0 + b,
                    b,
                    h,
                    queue@,
                    out@.to_set(),
                ));
            }
        } else {
            proof {
                assert(q_full.skip(1) =~= q_rest);
                assert(q_full.skip(1) + gq =~= q_rest + gq);
                assert(decode_rec(bits, pos0, b, h, q_full, out0) == decode_rec(
                    bits,
                    pos0 + b,
                    b,
                    h,
                    queue@,
                    out@.to_set(),
                ));
            }
        }
    }
    proof {
        assert(decode_rec(bits, stream.pos(), b, h, queue@, out@.to_set()) == Some(
            out@.to_set(),
        ));
    }
    Ok(out)
}

} // verus!
