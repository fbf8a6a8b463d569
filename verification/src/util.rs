//! Splitting a 32-bit value into its container key (high 16 bits) and
//! its index within the container (low 16 bits), and joining them back.

use vstd::prelude::*;

verus! {

/// The container key of a value: its high 16 bits.
pub open spec fn high(value: u32) -> u16 {
    (value >> 16) as u16
}

/// The index of a value within its container: its low 16 bits.
pub open spec fn low(value: u32) -> u16 {
    (value & 0xFFFF) as u16
}

/// The value made of a container key and an index within the container.
pub open spec fn joined(hi: u16, lo: u16) -> u32 {
    ((hi as u32) << 16) | (lo as u32)
}

/// `joined` is the inverse of the (`high`, `low`) pair, on every value.
pub proof fn lemma_split_join()
    ensures
        forall|value: u32| #[trigger] joined(high(value), low(value)) == value,
        forall|hi: u16, lo: u16| #[trigger] high(joined(hi, lo)) == hi,
        forall|hi: u16, lo: u16| #[trigger] low(joined(hi, lo)) == lo,
{
    assert forall|value: u32| #[trigger] joined(high(value), low(value)) == value by {
        let h = high(value);
        let l = low(value);
        assert(((((value >> 16) as u16) as u32) << 16) | (((value & 0xFFFF) as u16) as u32)
            == value) by (bit_vector);
    }
    assert forall|hi: u16, lo: u16| #[trigger] high(joined(hi, lo)) == hi by {
        assert((((((hi as u32) << 16) | (lo as u32)) >> 16) as u16) == hi) by (bit_vector);
    }
    assert forall|hi: u16, lo: u16| #[trigger] low(joined(hi, lo)) == lo by {
        assert(((((hi as u32) << 16) | (lo as u32)) & 0xFFFF) as u16 == lo) by (bit_vector);
    }
}

/// The key order of containers agrees with the value order: a value with a
/// smaller key is smaller, and within one key the index decides.
pub proof fn lemma_join_order(hi1: u16, lo1: u16, hi2: u16, lo2: u16)
    ensures
        hi1 < hi2 ==> joined(hi1, lo1) < joined(hi2, lo2),
        hi1 == hi2 && lo1 < lo2 ==> joined(hi1, lo1) < joined(hi2, lo2),
{
    assert(hi1 < hi2 ==> (((hi1 as u32) << 16) | (lo1 as u32)) < (((hi2 as u32) << 16) | (
    lo2 as u32))) by (bit_vector);
    assert(hi1 == hi2 && lo1 < lo2 ==> (((hi1 as u32) << 16) | (lo1 as u32)) < (((hi2 as u32)
        << 16) | (lo2 as u32))) by (bit_vector);
}

/// A larger value never has a smaller container key.
pub proof fn lemma_high_mono(v1: u32, v2: u32)
    requires
        v1 <= v2,
    ensures
        high(v1) <= high(v2),
{
    assert(v1 <= v2 ==> ((v1 >> 16) as u16) <= ((v2 >> 16) as u16)) by (bit_vector);
}

/// Returns the container key and the index in this container for a given
/// integer.
pub fn split(value: u32) -> (r: (u16, u16))
    ensures
        r.0 == high(value),
        r.1 == low(value),
{
    proof {
        assert((value & 0xFFFF) < 0x10000 && (value >> 16) < 0x10000 && ((value as u16) as u32)
            == value & 0xFFFF) by (bit_vector);
    }
    ((value >> 16) as u16, value as u16)
}

/// Returns the original integer from the container key and the index of it
/// in the container.
pub fn join(hi: u16, lo: u16) -> (r: u32)
    ensures
        r == joined(hi, lo),
{
    proof {
        assert(((hi as u32) << 16) | (lo as u32) == ((hi as u32) << 16) + (lo as u32))
            by (bit_vector);
        assert(((hi as u32) << 16) <= 0xFFFF0000) by (bit_vector);
    }
    ((hi as u32) << 16) + (lo as u32)
}

/// Position of the first element of `slice` that is not below `elem`;
/// `slice.len()` when every element is below it.
pub open spec fn lower_bound_in(s: Seq<u16>, elem: u16, r: int) -> bool {
    &&& 0 <= r <= s.len()
    &&& forall|m: int| 0 <= m < r ==> s[m] < elem
    &&& forall|m: int| r <= m < s.len() ==> s[m] >= elem
}

/// A strictly increasing sequence: the invariant of every sorted array in
/// this crate.
pub open spec fn sorted_strict(s: Seq<u16>) -> bool {
    forall|i: int, j: int| 0 <= i < j < s.len() ==> s[i] < s[j]
}

/// Whole-slice search outcome in the style of `binary_search`: `Ok` with a
/// witness position on a hit, `Err` with the insertion position on a miss.
pub fn exponential_search(slice: &[u16], elem: u16) -> (r: Result<usize, usize>)
    requires
        sorted_strict(slice@),
    ensures
        match r {
            Ok(i) => i < slice@.len() && slice@[i as int] == elem,
            Err(i) => lower_bound_in(slice@, elem, i as int) && !slice@.contains(elem),
        },
{
    let mut i: usize = 1;
    let len: usize = slice.len();
    while i < len
        invariant
            sorted_strict(slice@),
            len == slice@.len(),
            1 <= i,
            i <= len || i == 1,
            forall|m: int| 0 <= m < i / 2 && m < len ==> slice@[m] < elem,
        decreases len - i,
    {
        let probe = slice[i];
        if probe < elem {
            if i > len / 2 {
                // One more doubling would overshoot every index; the probe
                // already bounds the whole prefix, so finish right here.
                proof {
                    assert forall|m: int| 0 <= m <= i implies slice@[m] < elem by {
                        assert(m < i ==> slice@[m] < slice@[i as int]);
                    }
                }
                return search_range(slice, elem, i + 1, len);
            }
            i = i * 2;
        } else if probe > elem {
            proof {
                assert forall|m: int| i <= m < len implies slice@[m] > elem by {
                    assert(i < m ==> slice@[i as int] < slice@[m]);
                }
            }
            return search_range(slice, elem, i / 2, i);
        } else {
            return Ok(i);
        }
    }
    search_range(slice, elem, i / 2, len)
}

/// Binary search for `elem` within `slice[lo..hi]`, assuming everything
/// before `lo` is below `elem` and everything from `hi` on is above it.
fn search_range(slice: &[u16], elem: u16, lo: usize, hi: usize) -> (r: Result<usize, usize>)
    requires
        sorted_strict(slice@),
        lo <= hi <= slice@.len(),
        forall|m: int| 0 <= m < lo ==> slice@[m] < elem,
        forall|m: int| hi <= m < slice@.len() ==> slice@[m] > elem,
    ensures
        match r {
            Ok(i) => i < slice@.len() && slice@[i as int] == elem,
            Err(i) => lower_bound_in(slice@, elem, i as int) && !slice@.contains(elem),
        },
{
    let mut a = lo;
    let mut b = hi;
    while a < b
        invariant
            sorted_strict(slice@),
            lo <= a <= b <= hi <= slice@.len(),
            forall|m: int| 0 <= m < a ==> slice@[m] < elem,
            forall|m: int| b <= m < slice@.len() ==> slice@[m] > elem,
        decreases b - a,
    {
        let mid = a + (b - a) / 2;
        let v = slice[mid];
        if v < elem {
            a = mid + 1;
        } else if v > elem {
            proof {
                assert forall|m: int| mid <= m < slice@.len() implies slice@[m] > elem by {
                    assert(mid < m ==> slice@[mid as int] < slice@[m]);
                }
            }
            b = mid;
        } else {
            return Ok(mid);
        }
    }
    proof {
        if slice@.contains(elem) {
            let w = choose|w: int| 0 <= w < slice@.len() && slice@[w] == elem;
            assert(false);
        }
    }
    Err(a)
}

/// One end of a value range, as a caller describes it.
#[derive(Clone, Copy, PartialEq, Eq, Structural, Debug)]
pub enum RangeBound {
    Included(u32),
    Excluded(u32),
    Unbounded,
}

/// The inclusive start a range bound describes, if any value is left.
pub open spec fn start_of(b: RangeBound) -> Option<u32> {
    match b {
        RangeBound::Included(i) => Some(i),
        RangeBound::Excluded(i) => if i == u32::MAX {
            None
        } else {
            Some((i + 1) as u32)
        },
        RangeBound::Unbounded => Some(0),
    }
}

/// The inclusive end a range bound describes, if any value is left.
pub open spec fn end_of(b: RangeBound) -> Option<u32> {
    match b {
        RangeBound::Included(i) => Some(i),
        RangeBound::Excluded(i) => if i == 0 {
            None
        } else {
            Some((i - 1) as u32)
        },
        RangeBound::Unbounded => Some(u32::MAX),
    }
}

/// Normalize a pair of range bounds to an inclusive pair, or nothing for
/// an empty range.
pub fn convert_range_to_inclusive(start: RangeBound, end: RangeBound) -> (r: Option<(u32, u32)>)
    ensures
        r == (match (start_of(start), end_of(end)) {
            (Some(s), Some(e)) => if e < s {
                Option::<(u32, u32)>::None
            } else {
                Option::<(u32, u32)>::Some((s, e))
            },
            _ => Option::<(u32, u32)>::None,
        }),
{
    let s: u32 = match start {
        RangeBound::Included(i) => i,
        RangeBound::Excluded(i) => {
            if i == u32::MAX {
                return None;
            }
            i + 1
        },
        RangeBound::Unbounded => 0,
    };
    let e: u32 = match end {
        RangeBound::Included(i) => i,
        RangeBound::Excluded(i) => {
            if i == 0 {
                return None;
            }
            i - 1
        },
        RangeBound::Unbounded => u32::MAX,
    };
    if e < s {
        return None;
    }
    Some((s, e))
}

/// The four pair-wise set operations of this crate.
#[derive(Clone, Copy, PartialEq, Eq, Structural, Debug)]
pub enum SetOp {
    Union,
    Intersection,
    Difference,
    SymmetricDifference,
}

/// Whether a value belongs to the result of `op`, given on which sides it
/// appears.
pub open spec fn op_keeps(op: SetOp, in_a: bool, in_b: bool) -> bool {
    match op {
        SetOp::Union => in_a || in_b,
        SetOp::Intersection => in_a && in_b,
        SetOp::Difference => in_a && !in_b,
        SetOp::SymmetricDifference => in_a != in_b,
    }
}

/// Position of the first element of `slice` that is above `elem`;
/// `slice.len()` when no element is above it.
pub open spec fn upper_bound_in(s: Seq<u16>, elem: u16, r: int) -> bool {
    &&& 0 <= r <= s.len()
    &&& forall|m: int| 0 <= m < r ==> s[m] <= elem
    &&& forall|m: int| r <= m < s.len() ==> s[m] > elem
}

/// Position of the first element of `slice` above `elem`.
pub fn upper_bound(slice: &[u16], elem: u16) -> (r: usize)
    requires
        sorted_strict(slice@),
    ensures
        upper_bound_in(slice@, elem, r as int),
{
    let mut a: usize = 0;
    let mut b: usize = slice.len();
    while a < b
        invariant
            sorted_strict(slice@),
            a <= b <= slice@.len(),
            forall|m: int| 0 <= m < a ==> slice@[m] <= elem,
            forall|m: int| b <= m < slice@.len() ==> slice@[m] > elem,
        decreases b - a,
    {
        let mid = a + (b - a) / 2;
        let v = slice[mid];
        if v <= elem {
            proof {
                assert forall|m: int| 0 <= m < mid + 1 implies slice@[m] <= elem by {
                    assert(m < mid ==> slice@[m] < slice@[mid as int]);
                }
            }
            a = mid + 1;
        } else {
            proof {
                assert forall|m: int| mid <= m < slice@.len() implies slice@[m] > elem by {
                    assert(mid < m ==> slice@[mid as int] < slice@[m]);
                }
            }
            b = mid;
        }
    }
    a
}

/// Position of the first element of `slice` not below `elem`.
pub fn lower_bound(slice: &[u16], elem: u16) -> (r: usize)
    requires
        sorted_strict(slice@),
    ensures
        lower_bound_in(slice@, elem, r as int),
{
    match exponential_search(slice, elem) {
        Ok(i) => {
            proof {
                assert forall|m: int| 0 <= m < i implies slice@[m] < elem by {
                    assert(slice@[m] < slice@[i as int]);
                }
                assert forall|m: int| i <= m < slice@.len() implies slice@[m] >= elem by {
                    assert(i < m ==> slice@[i as int] < slice@[m]);
                }
            }
            i
        },
        Err(i) => i,
    }
}

} // verus!
