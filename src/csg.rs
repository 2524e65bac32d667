//! Constructive solid geometry: which hits of two combined operands survive.
use vstd::prelude::*;

verus! {

/// The boolean operation that combines the left and right operand of a node.
#[derive(Clone, Copy, Debug, PartialEq, Eq, Structural)]
pub enum Operation {
    Union,
    Intersect,
    Difference,
}

/// Whether a hit on the left operand (`lhit`) or on the right one (`!lhit`)
/// lies on the surface of the combined solid, given whether the ray is
/// currently inside the left operand (`inl`) and inside the right one (`inr`).
pub open spec fn allowed(op: Operation, lhit: bool, inl: bool, inr: bool) -> bool {
    match op {
        Operation::Union => (lhit && !inr) || (!lhit && !inl),
        Operation::Intersect => (lhit && inr) || (!lhit && inl),
        Operation::Difference => (lhit && !inr) || (!lhit && inl),
    }
}

/// Whether the ray is inside the left and inside the right operand after
/// crossing the first `n` surfaces; `lhits[k]` says whether the `k`-th
/// crossing was a surface of the left operand.
pub open spec fn inside_after(lhits: Seq<bool>, n: int) -> (bool, bool)
    decreases n,
{
    if n <= 0 {
        (false, false)
    } else {
        let prev = inside_after(lhits, n - 1);
        if lhits[n - 1] {
            (!prev.0, prev.1)
        } else {
            (prev.0, !prev.1)
        }
    }
}

/// Whether the `k`-th of the sorted hits is kept by the sweep.
pub open spec fn kept(op: Operation, lhits: Seq<bool>, k: int) -> bool {
    allowed(op, lhits[k], inside_after(lhits, k).0, inside_after(lhits, k).1)
}

/// The positions, in ascending order, of the hits among the first `n` that
/// the sweep keeps.
pub open spec fn kept_positions(op: Operation, lhits: Seq<bool>, n: int) -> Seq<usize>
    decreases n,
{
    if n <= 0 {
        Seq::empty()
    } else if kept(op, lhits, n - 1) {
        kept_positions(op, lhits, n - 1).push((n - 1) as usize)
    } else {
        kept_positions(op, lhits, n - 1)
    }
}

/// The truth table of the three operations.
pub fn intersection_allowed(op: Operation, lhit: bool, inl: bool, inr: bool) -> (r: bool)
    ensures
        r == allowed(op, lhit, inl, inr),
{
    match op {
        Operation::Union => (lhit && !inr) || (!lhit && !inl),
        Operation::Intersect => (lhit && inr) || (!lhit && inl),
        Operation::Difference => (lhit && !inr) || (!lhit && inl),
    }
}

/// One sweep over the hits of both operands, sorted by distance: `lhits[k]`
/// tells whether the `k`-th hit belongs to the left operand. Returns the
/// positions of the hits that lie on the combined surface, in order.
pub fn filter_intersections(op: Operation, lhits: &Vec<bool>) -> (r: Vec<usize>)
    ensures
        r@ == kept_positions(op, lhits@, lhits@.len() as int),
{
    let mut inl = false;
    let mut inr = false;
    let mut result: Vec<usize> = Vec::new();
    let mut k: usize = 0;
    while k < lhits.len()
        invariant
            k <= lhits@.len(),
            (inl, inr) == inside_after(lhits@, k as int),
            result@ == kept_positions(op, lhits@, k as int),
        decreases lhits@.len() - k,
    {
        let lhit = lhits[k];
        if intersection_allowed(op, lhit, inl, inr) {
            result.push(k);
        }
        if lhit {
            inl = !inl;
        } else {
            inr = !inr;
        }
        k = k + 1;
    }
    result
}

} // verus!
