//! Ordering the intersections of one ray and choosing the visible one.
//!
//! Distances are handled through order keys: the key of the bit pattern of
//! an IEEE-754 binary64 number orders as the number itself does, negative
//! numbers below positive ones, so selection needs integer comparisons only.
use vstd::prelude::*;

verus! {

pub const SIGN_BIT: u64 = 0x8000_0000_0000_0000;

/// The order key of the binary64 number with bit pattern `bits`: a negative
/// number has all its bits flipped, a positive one its sign bit set.
pub open spec fn key_of(bits: u64) -> u64 {
    if bits & SIGN_BIT != 0 {
        !bits
    } else {
        bits | SIGN_BIT
    }
}

pub fn order_key(bits: u64) -> (r: u64)
    ensures
        r == key_of(bits),
{
    if bits & SIGN_BIT != 0 {
        !bits
    } else {
        bits | SIGN_BIT
    }
}

/// Whether position `i` holds the first of the smallest keys above `floor`.
pub open spec fn is_visible(keys: Seq<u64>, floor: u64, i: int) -> bool {
    &&& 0 <= i < keys.len()
    &&& keys[i] > floor
    &&& forall|j: int| 0 <= j < keys.len() && keys[j] > floor ==> keys[i] <= #[trigger] keys[j]
    &&& forall|j: int| 0 <= j < i && keys[j] > floor ==> keys[i] < #[trigger] keys[j]
}

/// The visible hit: the position of the smallest distance key strictly
/// above `floor` (the first such position where several are equal), or
/// `None` where no key lies above `floor`. Hits at or below `floor` lie
/// behind the ray's origin or graze the surface it starts from.
pub fn hit(keys: &Vec<u64>, floor: u64) -> (r: Option<usize>)
    ensures
        r is None <==> forall|j: int| 0 <= j < keys@.len() ==> #[trigger] keys@[j] <= floor,
        r matches Some(i) ==> is_visible(keys@, floor, i as int),
{
    let mut best: Option<usize> = None;
    let mut k: usize = 0;
    while k < keys.len()
        invariant
            k <= keys@.len(),
            best is None <==> forall|j: int| 0 <= j < k ==> #[trigger] keys@[j] <= floor,
            best matches Some(i) ==> {
                &&& i < k
                &&& keys@[i as int] > floor
                &&& forall|j: int| 0 <= j < k && keys@[j] > floor ==> keys@[i as int] <= #[trigger] keys@[j]
                &&& forall|j: int| 0 <= j < i && keys@[j] > floor ==> keys@[i as int] < #[trigger] keys@[j]
            },
        decreases keys@.len() - k,
    {
        let key = keys[k];
        if key > floor {
            match best {
                Some(i) => {
                    if key < keys[i] {
                        best = Some(k);
                    }
                },
                None => {
                    best = Some(k);
                },
            }
        }
        k = k + 1;
    }
    best
}

/// Whether intersection `a` comes before intersection `b`: by distance, and
/// by position among equal distances.
pub open spec fn precedes(keys: Seq<u64>, a: usize, b: usize) -> bool {
    keys[a as int] < keys[b as int] || (keys[a as int] == keys[b as int] && a < b)
}

/// The positions of `keys` in ascending order of key, equal keys in their
/// original order: every position once, each before all that it precedes.
pub fn sort_by_distance(keys: &Vec<u64>) -> (r: Vec<usize>)
    ensures
        r@.len() == keys@.len(),
        forall|i: int| 0 <= i < r@.len() ==> #[trigger] r@[i] < keys@.len(),
        forall|i: int, j: int| 0 <= i < j < r@.len() ==> precedes(keys@, #[trigger] r@[i], #[trigger] r@[j]),
{
    let mut r: Vec<usize> = Vec::new();
    let mut k: usize = 0;
    while k < keys.len()
        invariant
            k <= keys@.len(),
            r@.len() == k,
            forall|i: int| 0 <= i < r@.len() ==> #[trigger] r@[i] < k,
            forall|i: int, j: int| 0 <= i < j < r@.len() ==> precedes(keys@, #[trigger] r@[i], #[trigger] r@[j]),
        decreases keys@.len() - k,
    {
        let key = keys[k];
        let mut p: usize = 0;
        while p < r.len() && keys[r[p]] <= key
            invariant
                p <= r@.len(),
                r@.len() == k,
                k < keys@.len(),
                key == keys@[k as int],
                forall|i: int| 0 <= i < r@.len() ==> #[trigger] r@[i] < k,
                forall|i: int| 0 <= i < p ==> keys@[#[trigger] r@[i] as int] <= key,
            decreases r@.len() - p,
        {
            p = p + 1;
        }
        let ghost before = r@;
        r.insert(p, k);
        proof {
            assert forall|i: int| 0 <= i < r@.len() implies #[trigger] r@[i] < k + 1 by {
                if i < p {
                    assert(r@[i] == before[i]);
                } else if i > p {
                    assert(r@[i] == before[i - 1]);
                }
            }
            assert forall|i: int, j: int| 0 <= i < j < r@.len() implies precedes(
                keys@,
                #[trigger] r@[i],
                #[trigger] r@[j],
            ) by {
                if j < p {
                    assert(r@[i] == before[i] && r@[j] == before[j]);
                } else if j == p {
                    assert(r@[i] == before[i]);
                    assert(keys@[before[i] as int] <= key);
                } else if i < p {
                    assert(r@[i] == before[i] && r@[j] == before[j - 1]);
                } else if i == p {
                    assert(r@[j] == before[j - 1]);
                    assert(before[p as int] == r@[p + 1]);
                    if j - 1 > p {
                        assert(precedes(keys@, before[p as int], before[j - 1]));
                    }
                    assert(keys@[before[p as int] as int] > key);
                } else {
                    assert(r@[i] == before[i - 1] && r@[j] == before[j - 1]);
                }
            }
        }
        k = k + 1;
    }
    r
}

} // verus!
