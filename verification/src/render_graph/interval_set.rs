//! Sets of bytes kept as sorted, merged half-open intervals.
use vstd::prelude::*;

verus! {

/// Whether byte `b` lies in one of the intervals.
pub open spec fn holds_byte(covered: Seq<(u64, u64)>, b: int) -> bool {
    exists|i: int| 0 <= i < covered.len() && (#[trigger] covered[i]).0 <= b < covered[i].1
}

/// Sorted, non-empty intervals with at least one byte free between neighbours.
pub open spec fn is_interval_set(covered: Seq<(u64, u64)>) -> bool {
    &&& forall|i: int| 0 <= i < covered.len() ==> (#[trigger] covered[i]).0 < covered[i].1
    &&& forall|i: int, j: int| #![trigger covered[i], covered[j]]
        0 <= i < j < covered.len() ==> covered[i].1 < covered[j].0
}

/// How many intervals start at or before `start`.
fn starts_up_to(covered: &Vec<(u64, u64)>, start: u64) -> (n: usize)
    requires
        is_interval_set(covered@),
    ensures
        n <= covered.len(),
        forall|i: int| 0 <= i < n ==> (#[trigger] covered[i]).0 <= start,
        forall|i: int| n <= i < covered.len() ==> (#[trigger] covered[i]).0 > start,
{
    let mut lo: usize = 0;
    let mut hi: usize = covered.len();
    while lo < hi
        invariant
            is_interval_set(covered@),
            lo <= hi <= covered.len(),
            forall|i: int| 0 <= i < lo ==> (#[trigger] covered[i]).0 <= start,
            forall|i: int| hi <= i < covered.len() ==> (#[trigger] covered[i]).0 > start,
        decreases hi - lo,
    {
        let mid: usize = lo + (hi - lo) / 2;
        if covered[mid].0 <= start {
            assert forall|i: int| 0 <= i < mid + 1 implies (#[trigger] covered[i]).0 <= start by {
                if i < mid {
                    assert(covered[i].1 < covered[mid as int].0);
                    assert(covered[i].0 < covered[i].1);
                }
            }
            lo = mid + 1;
        } else {
            assert forall|i: int| mid <= i < covered.len() implies (#[trigger] covered[i]).0
                > start by {
                if i > mid {
                    assert(covered[mid as int].1 < covered[i].0);
                    assert(covered[mid as int].0 < covered[mid as int].1);
                }
            }
            hi = mid;
        }
    }
    lo
}

/// Is `[start, end)` entirely inside `covered`?
///
/// One interval has to hold the whole range: neighbours in `covered` never touch,
/// so a range that crosses a gap is not covered.
pub fn range_covered(covered: &Vec<(u64, u64)>, start: u64, end: u64) -> (inside: bool)
    requires
        is_interval_set(covered@),
    ensures
        inside == exists|i: int|
            0 <= i < covered.len() && (#[trigger] covered[i]).0 <= start && end <= covered[i].1,
        start < end ==> (inside <==> forall|b: int| start <= b < end ==> holds_byte(covered@, b)),
{
    let after: usize = starts_up_to(covered, start);
    let inside = after > 0 && end <= covered[after - 1].1;
    proof {
        if inside {
            assert(covered[after - 1].0 <= start);
            assert forall|b: int| start <= b < end implies holds_byte(covered@, b) by {
                assert(covered[after - 1].0 <= b < covered[after - 1].1);
            }
        } else {
            assert forall|i: int| 0 <= i < covered.len() implies !((#[trigger] covered[i]).0 <= start
                && end <= covered[i].1) by {
                if i < after - 1 && covered[i].0 <= start && end <= covered[i].1 {
                    assert(covered[i].1 < covered[after - 1].0);
                    assert(covered[after - 1].0 < covered[after - 1].1);
                }
            }
            if start < end {
                // The first byte at or after `start` that no interval holds.
                let b: int = if after > 0 && covered[after - 1].1 > start {
                    covered[after - 1].1 as int
                } else {
                    start as int
                };
                assert(start <= b < end);
                assert(!holds_byte(covered@, b)) by {
                    assert forall|i: int| 0 <= i < covered.len() implies !((#[trigger] covered[i]).0
                        <= b < covered[i].1) by {
                        if i < after - 1 {
                            assert(covered[i].1 < covered[after - 1].0);
                        }
                        if i >= after && after > 0 {
                            assert(covered[after - 1].1 < covered[i].0);
                        }
                    }
                }
            }
        }
    }
    inside
}

/// Add `[start, end)` to `covered`, keeping it sorted and merged.
///
/// Intervals that overlap the range or merely touch it are joined with it, so
/// `covered` stays the one canonical list for the bytes it holds.
pub fn cover_range(covered: &mut Vec<(u64, u64)>, start: u64, end: u64)
    requires
        start < end,
        is_interval_set(old(covered)@),
    ensures
        is_interval_set(final(covered)@),
        forall|b: int| #[trigger]
            holds_byte(final(covered)@, b) <==> holds_byte(old(covered)@, b) || start <= b < end,
{
    let ghost before = covered@;
    let mut out: Vec<(u64, u64)> = Vec::with_capacity(covered.len());
    let mut lo: u64 = start;
    let mut hi: u64 = end;
    let n: usize = covered.len();
    let mut i: usize = 0;
    // Everything that ends before the range begins is kept as it is.
    while i < n && covered[i].1 < start
        invariant
            n == before.len(),
            covered@ == before,
            is_interval_set(before),
            i <= n,
            out@ == before.take(i as int),
            forall|k: int| 0 <= k < i ==> (#[trigger] before[k]).1 < start,
        decreases n - i,
    {
        out.push(covered[i]);
        proof {
            assert(before.take(i as int).push(before[i as int]) =~= before.take(i + 1));
        }
        i = i + 1;
    }
    let ghost first = i as int;
    // Everything that overlaps or touches the range is swallowed by it.
    while i < n && covered[i].0 <= end
        invariant
            n == before.len(),
            covered@ == before,
            is_interval_set(before),
            start < end,
            0 <= first <= i <= n,
            lo <= start,
            end <= hi,
            forall|k: int| first <= k < i ==> lo <= (#[trigger] before[k]).0 && before[k].1 <= hi,
            forall|k: int| first <= k < n ==> (#[trigger] before[k]).1 >= start,
            lo == start || (first < i && lo == before[first].0),
            hi == end || (first < i && hi == before[i - 1].1),
            first < i ==> before[i - 1].0 <= end,
        decreases n - i,
    {
        proof {
            if i > first {
                assert(before[i - 1].1 < before[i as int].0);
                assert(before[first].0 < before[first].1);
                assert(before[first].1 < before[i as int].0);
            }
        }
        if covered[i].0 < lo {
            lo = covered[i].0;
        }
        if covered[i].1 > hi {
            hi = covered[i].1;
        }
        assert(before[i as int].0 < before[i as int].1);
        i = i + 1;
    }
    let ghost last = i as int;
    out.push((lo, hi));
    let ghost mid = out@;
    assert(mid == before.take(first).push((lo, hi)));
    while i < n
        invariant
            n == before.len(),
            covered@ == before,
            0 <= last <= i <= n,
            out@ == mid + before.subrange(last, i as int),
        decreases n - i,
    {
        out.push(covered[i]);
        proof {
            assert(before.subrange(last, i as int).push(before[i as int]) =~= before.subrange(
                last,
                i + 1,
            ));
        }
        i = i + 1;
    }
    proof {
        let res = out@;
        assert(res == before.take(first).push((lo, hi)) + before.subrange(last, n as int));
        assert(res[first] == (lo, hi));
        assert forall|k: int| 0 <= k < first implies res[k] == before[k] by {}
        assert forall|k: int| first < k < res.len() implies res[k] == before[last + k - first - 1] by {}
        assert forall|k: int| last <= k < n implies hi < (#[trigger] before[k]).0 by {
            if last > first {
                assert(before[last - 1].1 < before[k].0);
            }
            if k > last {
                assert(before[last].1 < before[k].0);
                assert(before[last].0 < before[last].1);
            }
        }
        assert forall|k: int| 0 <= k < first implies (#[trigger] before[k]).1 < lo by {
            if first < n {
                assert(before[k].1 < before[first].0);
            }
        }
        assert forall|k: int| 0 <= k < res.len() implies (#[trigger] res[k]).0 < res[k].1 by {
            if k < first {
                assert(before[k].0 < before[k].1);
            } else if k > first {
                assert(before[last + k - first - 1].0 < before[last + k - first - 1].1);
            }
        }
        assert forall|a: int, b: int| #![trigger res[a], res[b]] 0 <= a < b < res.len() implies res[a].1
            < res[b].0 by {
            if b < first {
                assert(before[a].1 < before[b].0);
            } else if b == first {
                assert(before[a].1 < lo);
            } else {
                let kb = last + b - first - 1;
                assert(hi < before[kb].0);
                if a < first {
                    assert(before[a].1 < lo);
                } else if a > first {
                    assert(before[last + a - first - 1].1 < before[kb].0);
                }
            }
        }
        assert forall|b: int| #[trigger] holds_byte(res, b) <==> holds_byte(before, b) || start <= b
            < end by {
            if holds_byte(res, b) {
                let k = choose|k: int| 0 <= k < res.len() && (#[trigger] res[k]).0 <= b < res[k].1;
                if k < first {
                    assert(before[k].0 <= b < before[k].1);
                } else if k > first {
                    let kb = last + k - first - 1;
                    assert(before[kb].0 <= b < before[kb].1);
                } else if !(start <= b < end) {
                    if b < start {
                        assert(before[first].0 <= b < before[first].1);
                    } else {
                        assert(before[last - 1].0 <= b < before[last - 1].1);
                    }
                }
            }
            if holds_byte(before, b) {
                let k = choose|k: int|
                    0 <= k < before.len() && (#[trigger] before[k]).0 <= b < before[k].1;
                if k < first {
                    assert(res[k].0 <= b < res[k].1);
                } else if k < last {
                    assert(res[first].0 <= b < res[first].1);
                } else {
                    let kr = k - last + first + 1;
                    assert(res[kr] == before[k]);
                }
            }
            if start <= b < end {
                assert(res[first].0 <= b < res[first].1);
            }
        }
    }
    *covered = out;
}

} // verus!
