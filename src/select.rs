//! Choice of a function of the system by cumulative thresholds.
//!
//! A draw and the thresholds are non-negative `f32` values, carried here as
//! their IEEE-754 bit patterns (`f32::to_bits`). For values whose sign bit is
//! clear the order of the bit patterns, read as unsigned integers, is the
//! order of the values, so every comparison the selection makes is a
//! comparison of `u32`s.
use vstd::prelude::*;

verus! {

/// Bit pattern of `1.0_f32`.
pub const ONE_BITS: u32 = 0x3f80_0000;

/// Largest pattern whose sign bit is clear.
pub const MAX_NON_NEGATIVE_BITS: u32 = 0x7fff_ffff;

/// The pattern has a clear sign bit: the value is `+0.0` or more (or a NaN
/// with a clear sign bit, which no threshold of a partition can be).
pub open spec fn non_negative(bits: u32) -> bool {
    bits <= MAX_NON_NEGATIVE_BITS
}

/// A draw of the uniform distribution on `[0, 1)`.
pub open spec fn is_unit_draw(bits: u32) -> bool {
    bits < ONE_BITS
}

/// Thresholds that split `[0, 1)` into consecutive half-open intervals, one
/// per function: each is non-negative, none is below the one before, and the
/// last is exactly one.
pub open spec fn is_partition_spec(t: Seq<u32>) -> bool {
    &&& t.len() > 0
    &&& forall|i: int| 0 <= i < t.len() ==> non_negative(#[trigger] t[i])
    &&& forall|i: int, j: int| 0 <= i <= j < t.len() ==> t[i] <= t[j]
    &&& t.last() == ONE_BITS
}

/// The function chosen by `draw`: the first whose threshold exceeds the
/// draw, none if no threshold does.
#[verifier::opaque]
pub open spec fn selected(t: Seq<u32>, draw: u32) -> Option<int> {
    if exists|i: int| 0 <= i < t.len() && draw < #[trigger] t[i] {
        Some(choose|i: int| 0 <= i < t.len() && draw < t[i]
            && forall|j: int| 0 <= j < i ==> t[j] <= draw)
    } else {
        None
    }
}

/// Whether `thresholds` split `[0, 1)` as a function system needs.
pub fn is_partition(thresholds: &Vec<u32>) -> (r: bool)
    ensures
        r == is_partition_spec(thresholds@),
{
    let n = thresholds.len();
    if n == 0 {
        return false;
    }
    let mut k: usize = 0;
    while k < n
        invariant
            n == thresholds@.len(),
            k <= n,
            forall|i: int| 0 <= i < k ==> non_negative(#[trigger] thresholds@[i]),
            forall|i: int, j: int| 0 <= i <= j < k ==> thresholds@[i] <= thresholds@[j],
        decreases n - k,
    {
        if thresholds[k] > MAX_NON_NEGATIVE_BITS {
            return false;
        }
        if k > 0 && thresholds[k - 1] > thresholds[k] {
            return false;
        }
        k = k + 1;
    }
    thresholds[n - 1] == ONE_BITS
}

/// Index of the first threshold that exceeds `draw`, or `None` if none
/// does. Entries are the half-open intervals between consecutive
/// thresholds, so an equal threshold does not take the draw.
pub fn select_entry(thresholds: &Vec<u32>, draw: u32) -> (r: Option<usize>)
    ensures
        match r {
            Some(i) => {
                &&& i < thresholds@.len()
                &&& draw < thresholds@[i as int]
                &&& forall|j: int| 0 <= j < i ==> thresholds@[j] <= draw
            },
            None => forall|j: int| 0 <= j < thresholds@.len() ==> thresholds@[j] <= draw,
        },
        r matches Some(i) ==> selected(thresholds@, draw) == Some(i as int),
        r is None <==> selected(thresholds@, draw) is None,
{
    let mut k: usize = 0;
    while k < thresholds.len()
        invariant
            k <= thresholds@.len(),
            forall|j: int| 0 <= j < k ==> thresholds@[j] <= draw,
        decreases thresholds@.len() - k,
    {
        if draw < thresholds[k] {
            proof {
                lemma_first_above_unique(thresholds@, draw, k as int);
            }
            return Some(k);
        }
        k = k + 1;
    }
    proof {
        reveal(selected);
    }
    None
}

/// The first threshold above a draw is the only one with no threshold above
/// the draw before it.
proof fn lemma_first_above_unique(t: Seq<u32>, draw: u32, k: int)
    requires
        0 <= k < t.len(),
        draw < t[k],
        forall|j: int| 0 <= j < k ==> t[j] <= draw,
    ensures
        selected(t, draw) == Some(k),
{
    reveal(selected);
    let c = choose|i: int| 0 <= i < t.len() && draw < t[i]
        && forall|j: int| 0 <= j < i ==> t[j] <= draw;
    assert(0 <= k < t.len() && draw < t[k] && forall|j: int| 0 <= j < k ==> t[j] <= draw);
    if c < k {
        assert(t[c] <= draw);
    } else if c > k {
        assert(t[k] <= draw);
    }
}

/// Under a partition every draw of `[0, 1)` selects exactly one function:
/// the one whose interval `[previous threshold, threshold)` holds it.
pub proof fn lemma_partition_selects(t: Seq<u32>, draw: u32)
    requires
        is_partition_spec(t),
        is_unit_draw(draw),
    ensures
        selected(t, draw) is Some,
        ({
            let i = selected(t, draw)->0;
            &&& 0 <= i < t.len()
            &&& draw < t[i]
            &&& i == 0 || t[i - 1] <= draw
        }),
{
    let last = t.len() - 1;
    assert(draw < t[last]);
    let k = lemma_first_above_from(t, draw, 0);
    if k > 0 {
        assert(t[k - 1] <= draw);
    }
}

/// Walks from `k` to the first threshold above `draw`, which exists because
/// the last one is.
proof fn lemma_first_above_from(t: Seq<u32>, draw: u32, k: int) -> (r: int)
    requires
        0 <= k < t.len(),
        draw < t.last(),
        forall|j: int| 0 <= j < k ==> t[j] <= draw,
    ensures
        k <= r < t.len(),
        draw < t[r],
        selected(t, draw) == Some(r),
        forall|j: int| 0 <= j < r ==> t[j] <= draw,
    decreases t.len() - k,
{
    if draw < t[k] {
        lemma_first_above_unique(t, draw, k);
        k
    } else {
        lemma_first_above_from(t, draw, k + 1)
    }
}

} // verus!
