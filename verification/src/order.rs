//! The pivots of a tree block: how many there are, and where the pivot of a
//! heap position stands among them.
//!
//! A block with branch factor `bf` holds `2 * bf - 1` pivots. They form a
//! perfect binary tree that is walked by heap position (the root is 0, the
//! children of `c` are `2c + 1` and `2c + 2`) and stored in order of their
//! values, so that a walk from left to right meets them sorted.

use vstd::prelude::*;

verus! {

/// Whether `x` is a power of two.
pub open spec fn is_pow2(x: nat) -> bool
    decreases x,
{
    x == 1 || (x > 1 && x % 2 == 0 && is_pow2(x / 2))
}

/// The number of pivots of a block.
pub open spec fn pivot_count(bf: nat) -> nat {
    (2 * bf - 1) as nat
}

/// The number of heap positions on the level of `c`.
pub open spec fn level_width(c: nat) -> nat
    decreases c,
{
    if c == 0 {
        1
    } else {
        2 * level_width(((c - 1) / 2) as nat)
    }
}

/// Half the number of pivots below `c`, plus one half: the distance from the
/// pivot of `c` to a pivot of its children is half of it.
pub open spec fn gap(bf: nat, c: nat) -> nat
    decreases c,
{
    if c == 0 {
        bf
    } else {
        gap(bf, ((c - 1) / 2) as nat) / 2
    }
}

/// The place among the sorted pivots of the pivot at heap position `c`. The
/// root stands in the middle; a left child stands half a gap before its
/// parent, a right child half a gap behind it.
pub open spec fn inorder(bf: nat, c: nat) -> int
    decreases c,
{
    if c == 0 {
        bf - 1
    } else {
        let parent = ((c - 1) / 2) as nat;
        if c % 2 == 1 {
            inorder(bf, parent) - gap(bf, c)
        } else {
            inorder(bf, parent) + gap(bf, c)
        }
    }
}

/// Inside a block every heap position has a gap that is a power of two, and
/// the pivots below it fill the places within less than a gap of its own,
/// all of them places of the block.
pub proof fn placement(bf: nat, c: nat)
    requires
        is_pow2(bf),
        c < pivot_count(bf),
    ensures
        gap(bf, c) >= 1,
        is_pow2(gap(bf, c)),
        level_width(c) * gap(bf, c) == bf,
        level_width(c) <= c + 1 < 2 * level_width(c),
        c > 0 ==> gap(bf, ((c - 1) / 2) as nat) == 2 * gap(bf, c),
        2 * c + 1 >= pivot_count(bf) ==> gap(bf, c) == 1,
        0 <= inorder(bf, c) - gap(bf, c) + 1,
        inorder(bf, c) + gap(bf, c) <= pivot_count(bf),
        0 <= inorder(bf, c) < pivot_count(bf),
    decreases c,
{
    if c > 0 {
        let p = ((c - 1) / 2) as nat;
        placement(bf, p);
        let gp = gap(bf, p);
        let lp = level_width(p);
        if gp == 1 {
            assert(lp == bf) by (nonlinear_arith)
                requires
                    lp * gp == bf,
                    gp == 1,
            ;
            assert(false);
        }
        let g = gap(bf, c);
        assert(gp == 2 * g);
        assert(level_width(c) * g == bf) by (nonlinear_arith)
            requires
                level_width(c) == 2 * lp,
                gp == 2 * g,
                lp * gp == bf,
        ;
        if 2 * c + 1 >= pivot_count(bf) && g >= 2 {
            assert(level_width(c) * g >= 2 * level_width(c)) by (nonlinear_arith)
                requires
                    g >= 2,
            ;
            assert(false);
        }
    } else {
        assert(level_width(c) == 1);
        assert(gap(bf, c) == bf);
        assert(level_width(c) * gap(bf, c) == bf) by (nonlinear_arith)
            requires
                level_width(c) == 1,
                gap(bf, c) == bf,
        ;
    }
}

/// The pivots below a heap position stand on both sides of its own: the
/// pivot of the left child before it, that of the right child behind it.
pub proof fn children_straddle(bf: nat, c: nat)
    requires
        is_pow2(bf),
        2 * c + 2 < pivot_count(bf),
    ensures
        inorder(bf, 2 * c + 1) < inorder(bf, c) < inorder(bf, 2 * c + 2),
{
    placement(bf, 2 * c + 1);
    placement(bf, 2 * c + 2);
    assert(((2 * c + 1 - 1) / 2) as nat == c);
    assert(((2 * c + 2 - 1) / 2) as nat == c);
}

/// Whether `x` is a power of two.
pub fn is_power_of_two(x: usize) -> (b: bool)
    ensures
        b == is_pow2(x as nat),
{
    let mut rest: usize = x;
    while rest > 1 && rest % 2 == 0
        invariant
            is_pow2(rest as nat) == is_pow2(x as nat),
        decreases rest,
    {
        rest = rest / 2;
    }
    rest == 1
}

/// The number of pivots of a block with branch factor `bf`.
pub fn order_len(bf: usize) -> (n: usize)
    requires
        1 <= bf <= usize::MAX / 2,
    ensures
        n == pivot_count(bf as nat),
{
    2 * bf - 1
}

/// The place and the gap of heap position `c`.
fn locate(bf: usize, c: usize) -> (r: (usize, usize))
    requires
        is_pow2(bf as nat),
        bf <= usize::MAX / 2,
        c < pivot_count(bf as nat),
    ensures
        r.0 == inorder(bf as nat, c as nat),
        r.1 == gap(bf as nat, c as nat),
    decreases c,
{
    proof {
        placement(bf as nat, c as nat);
    }
    if c == 0 {
        (bf - 1, bf)
    } else {
        let (place, width) = locate(bf, (c - 1) / 2);
        let half = width / 2;
        if c % 2 == 1 {
            (place - half, half)
        } else {
            (place + half, half)
        }
    }
}

/// The place among the sorted pivots of the pivot at heap position `c`.
pub fn order(bf: usize, c: usize) -> (i: usize)
    requires
        is_pow2(bf as nat),
        bf <= usize::MAX / 2,
        c < pivot_count(bf as nat),
    ensures
        i == inorder(bf as nat, c as nat),
        i < pivot_count(bf as nat),
{
    proof {
        placement(bf as nat, c as nat);
    }
    locate(bf, c).0
}

} // verus!
