//! Which surfaces a ray crosses between media: the stack of shapes that the
//! ray is inside of, walked along the hits sorted by distance.
use vstd::prelude::*;

verus! {

/// `c` without the first occurrence of `s`.
pub open spec fn remove_first(c: Seq<usize>, s: usize) -> Seq<usize>
    decreases c.len(),
{
    if c.len() == 0 {
        c
    } else if c[0] == s {
        c.drop_first()
    } else {
        seq![c[0]] + remove_first(c.drop_first(), s)
    }
}

/// Crossing the surface of `s`: leaving it if the ray is inside it, else
/// entering it.
pub open spec fn toggled(c: Seq<usize>, s: usize) -> Seq<usize> {
    if c.contains(s) {
        remove_first(c, s)
    } else {
        c.push(s)
    }
}

/// The shapes the ray is inside of, innermost last, after its first `n`
/// hits; `hits[k]` is the shape struck by the `k`-th hit.
pub open spec fn containers(hits: Seq<usize>, n: int) -> Seq<usize>
    decreases n,
{
    if n <= 0 {
        Seq::empty()
    } else {
        toggled(containers(hits, n - 1), hits[n - 1])
    }
}

/// The innermost shape of a stack, if any.
pub open spec fn innermost(c: Seq<usize>) -> Option<usize> {
    if c.len() == 0 {
        None
    } else {
        Some(c.last())
    }
}

proof fn lemma_remove_first_at(c: Seq<usize>, s: usize, p: int)
    requires
        0 <= p < c.len(),
        c[p] == s,
        forall|j: int| 0 <= j < p ==> c[j] != s,
    ensures
        remove_first(c, s) == c.remove(p),
    decreases p,
{
    if p == 0 {
        assert(c.drop_first() =~= c.remove(0));
    } else {
        let t = c.drop_first();
        assert forall|j: int| 0 <= j < p - 1 implies t[j] != s by {
            assert(t[j] == c[j + 1]);
        }
        lemma_remove_first_at(t, s, p - 1);
        assert(seq![c[0]] + t.remove(p - 1) =~= c.remove(p));
    }
}

/// The media on both sides of the surface struck by hit `target`, among
/// the hits of one ray sorted by distance (`hits[k]` is the shape struck by
/// the `k`-th hit): the innermost shape the ray is inside of just before the
/// hit (`.0`), and just after it (`.1`). `None` stands for the vacuum
/// outside all shapes; where `target` is no position of `hits`, both are
/// `None`.
pub fn refraction_boundary(hits: &Vec<usize>, target: usize) -> (r: (Option<usize>, Option<usize>))
    ensures
        target < hits@.len() ==> r == (
            innermost(containers(hits@, target as int)),
            innermost(containers(hits@, target + 1)),
        ),
        target >= hits@.len() ==> r == (None::<usize>, None::<usize>),
{
    if target >= hits.len() {
        return (None, None);
    }
    let mut inside: Vec<usize> = Vec::new();
    let mut k: usize = 0;
    while k < target
        invariant
            k <= target < hits@.len(),
            inside@ == containers(hits@, k as int),
        decreases target - k,
    {
        toggle(&mut inside, hits[k]);
        k = k + 1;
    }
    let before = if inside.len() == 0 {
        None
    } else {
        Some(inside[inside.len() - 1])
    };
    toggle(&mut inside, hits[target]);
    let after = if inside.len() == 0 {
        None
    } else {
        Some(inside[inside.len() - 1])
    };
    (before, after)
}

fn toggle(inside: &mut Vec<usize>, s: usize)
    ensures
        final(inside)@ == toggled(old(inside)@, s),
{
    let mut p: usize = 0;
    while p < inside.len()
        invariant
            p <= inside@.len(),
            inside@ == old(inside)@,
            forall|j: int| 0 <= j < p ==> inside@[j] != s,
        decreases inside@.len() - p,
    {
        if inside[p] == s {
            proof {
                lemma_remove_first_at(inside@, s, p as int);
                assert(inside@.contains(s));
            }
            inside.remove(p);
            return;
        }
        p = p + 1;
    }
    proof {
        assert(!inside@.contains(s));
    }
    inside.push(s);
}

} // verus!
