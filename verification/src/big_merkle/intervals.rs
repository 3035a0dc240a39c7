//! The index of empty base ranges: disjoint intervals, no two of them
//! adjacent, that together hold every empty base index.

use vstd::prelude::*;
use crate::big_merkle::merkle_range::MerkleRange;

verus! {

/// Whether the interval holds the whole of `[lo, hi)`.
pub open spec fn covers(r: MerkleRange, lo: int, hi: int) -> bool {
    r.start <= lo && hi <= r.end
}

/// Whether one of the intervals holds the whole of `[lo, hi)`.
pub open spec fn covered(s: Seq<MerkleRange>, lo: int, hi: int) -> bool {
    exists|k: int| 0 <= k < s.len() && #[trigger] covers(s[k], lo, hi)
}

/// Whether the base index is empty: one of the intervals holds it.
pub open spec fn empty_at(s: Seq<MerkleRange>, i: int) -> bool {
    covered(s, i, i + 1)
}

/// The intervals are not empty, lie below `width`, and any two of them are
/// apart by at least one base index.
pub open spec fn intervals_wf(s: Seq<MerkleRange>, width: int) -> bool {
    &&& forall|k: int| 0 <= k < s.len() ==> (#[trigger] s[k]).start < s[k].end <= width
    &&& forall|j: int, k: int|
        0 <= j < s.len() && 0 <= k < s.len() && j != k ==> (#[trigger] s[j]).end < (
        #[trigger] s[k]).start || s[k].end < s[j].start
}

/// A range of empty base indices lies in a single interval: the intervals are
/// maximal.
pub proof fn lemma_empty_run_is_covered(s: Seq<MerkleRange>, width: int, lo: int, hi: int)
    requires
        intervals_wf(s, width),
        lo < hi,
        forall|i: int| lo <= i < hi ==> #[trigger] empty_at(s, i),
    ensures
        covered(s, lo, hi),
    decreases hi - lo,
{
    if hi == lo + 1 {
        assert(empty_at(s, lo));
    } else {
        lemma_empty_run_is_covered(s, width, lo, hi - 1);
        let a = choose|k: int| 0 <= k < s.len() && #[trigger] covers(s[k], lo, hi - 1);
        assert(empty_at(s, hi - 1));
        assert(empty_at(s, hi - 2));
        let b = choose|k: int| 0 <= k < s.len() && #[trigger] covers(s[k], hi - 1, hi);
        assert(a == b);
        assert(covers(s[a], lo, hi));
    }
}

/// The position of the interval that holds a base index, if one does.
pub fn find_interval(v: &Vec<MerkleRange>, idx: usize) -> (r: Option<usize>)
    ensures
        match r {
            Some(k) => k < v@.len() && v@[k as int].start <= idx < v@[k as int].end,
            None => forall|j: int|
                0 <= j < v@.len() ==> !((#[trigger] v@[j]).start <= idx < v@[j].end),
        },
{
    let mut k: usize = 0;
    while k < v.len()
        invariant
            k <= v@.len(),
            forall|j: int| 0 <= j < k ==> !((#[trigger] v@[j]).start <= idx < v@[j].end),
        decreases v@.len() - k,
    {
        if v[k].start <= idx && idx < v[k].end {
            return Some(k);
        }
        k += 1;
    }
    None
}

/// Whether one of the intervals holds the whole range.
pub fn covers_range(v: &Vec<MerkleRange>, range: &MerkleRange) -> (r: bool)
    ensures
        r == covered(v@, range.start as int, range.end as int),
{
    let mut k: usize = 0;
    while k < v.len()
        invariant
            k <= v@.len(),
            forall|j: int|
                0 <= j < k ==> !#[trigger] covers(v@[j], range.start as int, range.end as int),
        decreases v@.len() - k,
    {
        if v[k].contains(range) {
            assert(covers(v@[k as int], range.start as int, range.end as int));
            return true;
        }
        k += 1;
    }
    false
}

/// Takes a base index out of the empty intervals: the interval that holds it
/// is split into what lies before the index and what lies behind it, and a
/// piece is kept only if it is not empty.
pub fn split_at(v: &mut Vec<MerkleRange>, width: usize, idx: usize)
    requires
        intervals_wf(old(v)@, width as int),
    ensures
        intervals_wf(final(v)@, width as int),
        !covered(final(v)@, idx as int, idx + 1),
        forall|lo: int, hi: int|
            lo < hi && !(lo <= idx < hi) ==> covered(final(v)@, lo, hi) == covered(
                old(v)@,
                lo,
                hi,
            ),
{
    let ghost before = v@;
    let n: usize = v.len();
    match find_interval(v, idx) {
        None => {
            assert forall|k: int| 0 <= k < before.len() implies !#[trigger] covers(
                before[k],
                idx as int,
                idx + 1,
            ) by {
                assert(!(before[k].start <= idx < before[k].end));
            }
        },
        Some(k) => {
            let e = v[k];
            let keep_left = idx > e.start;
            let keep_right = idx + 1 < e.end;
            if keep_right {
                v[k] = MerkleRange { start: idx + 1, end: e.end };
                if keep_left {
                    v.push(MerkleRange { start: e.start, end: idx });
                }
            } else if keep_left {
                v[k] = MerkleRange { start: e.start, end: idx };
            } else {
                v.remove(k);
            }
            proof {
                let after = v@;
                let shift = |j: int|
                    if !keep_right && !keep_left && j >= k {
                        j + 1
                    } else if j == n {
                        k as int
                    } else {
                        j
                    };
                assert forall|j: int| 0 <= j < after.len() implies 0 <= shift(j) < before.len()
                    && before[shift(j)].start <= (#[trigger] after[j]).start && after[j].end
                    <= before[shift(j)].end && after[j].start < after[j].end && !(after[j].start
                    <= idx < after[j].end) by {
                    if shift(j) != k {
                        assert(after[j] == before[shift(j)]);
                        assert(!(before[shift(j)].start <= idx < before[shift(j)].end));
                    }
                }
                assert forall|i: int, j: int|
                    0 <= i < after.len() && 0 <= j < after.len() && i != j implies (
                #[trigger] after[i]).end < (#[trigger] after[j]).start || after[j].end
                    < after[i].start by {
                    if shift(i) != shift(j) {
                        assert(before[shift(i)].end < before[shift(j)].start || before[shift(
                            j,
                        )].end < before[shift(i)].start);
                    }
                }
                assert(!covered(after, idx as int, idx + 1));
                assert forall|lo: int, hi: int| lo < hi && !(lo <= idx < hi) implies covered(
                    after,
                    lo,
                    hi,
                ) == covered(before, lo, hi) by {
                    if covered(before, lo, hi) {
                        let j = choose|j: int|
                            0 <= j < before.len() && #[trigger] covers(before[j], lo, hi);
                        if j == k {
                            if hi <= idx {
                                let t = if keep_right {
                                    n as int
                                } else {
                                    k as int
                                };
                                assert(covers(after[t], lo, hi));
                            } else {
                                assert(covers(after[k as int], lo, hi));
                            }
                        } else if !keep_right && !keep_left && j > k {
                            assert(covers(after[j - 1], lo, hi));
                        } else {
                            assert(covers(after[j], lo, hi));
                        }
                    }
                    if covered(after, lo, hi) {
                        let j = choose|j: int|
                            0 <= j < after.len() && #[trigger] covers(after[j], lo, hi);
                        assert(covers(before[shift(j)], lo, hi));
                    }
                }
            }
        },
    }
}

/// Gives a base index back to the empty intervals: it joins the intervals that
/// end before it and start behind it, extends the one of them that exists, or
/// becomes an interval of its own. An index that is empty already changes
/// nothing.
pub fn release_at(v: &mut Vec<MerkleRange>, width: usize, idx: usize)
    requires
        intervals_wf(old(v)@, width as int),
        idx < width,
    ensures
        intervals_wf(final(v)@, width as int),
        covered(final(v)@, idx as int, idx + 1),
        forall|lo: int, hi: int|
            lo < hi && !(lo <= idx < hi) ==> covered(final(v)@, lo, hi) == covered(
                old(v)@,
                lo,
                hi,
            ),
{
    let ghost before = v@;
    let n: usize = v.len();
    if let Some(k) = find_interval(v, idx) {
        assert(covers(before[k as int], idx as int, idx + 1));
        return ;
    }
    let left = if idx > 0 {
        find_interval(v, idx - 1)
    } else {
        None
    };
    let right = if idx + 1 < width {
        find_interval(v, idx + 1)
    } else {
        None
    };
    proof {
        assert forall|j: int| 0 <= j < before.len() implies !((#[trigger] before[j]).start == idx
            + 1 && right is None) && !(before[j].end == idx && left is None) by {
            assert(before[j].start < before[j].end <= width);
        }
    }
    match (left, right) {
        (Some(l), Some(r)) => {
            let joined = MerkleRange { start: v[l].start, end: v[r].end };
            v[l] = joined;
            v.remove(r);
            proof {
                lemma_joined(before, v@, width as int, idx as int, l as int, r as int);
            }
        },
        (Some(l), None) => {
            v[l] = MerkleRange { start: v[l].start, end: idx + 1 };
            proof {
                lemma_grown(before, v@, width as int, idx as int, l as int);
            }
        },
        (None, Some(r)) => {
            v[r] = MerkleRange { start: idx, end: v[r].end };
            proof {
                lemma_grown(before, v@, width as int, idx as int, r as int);
            }
        },
        (None, None) => {
            v.push(MerkleRange { start: idx, end: idx + 1 });
            proof {
                lemma_added(before, v@, width as int, idx as int);
            }
        },
    }
}

/// Two intervals with one free base index between them, joined into one, keep
/// the intervals well formed and change nothing for the ranges without that
/// index.
proof fn lemma_joined(
    before: Seq<MerkleRange>,
    after: Seq<MerkleRange>,
    width: int,
    idx: int,
    l: int,
    r: int,
)
    requires
        intervals_wf(before, width),
        0 <= l < before.len(),
        0 <= r < before.len(),
        before[l].end == idx,
        before[r].start == idx + 1,
        after == before.update(
            l,
            MerkleRange { start: before[l].start, end: before[r].end },
        ).remove(r),
    ensures
        intervals_wf(after, width),
        covered(after, idx, idx + 1),
        forall|lo: int, hi: int|
            lo < hi && !(lo <= idx < hi) ==> covered(after, lo, hi) == covered(before, lo, hi),
{
    let joined = MerkleRange { start: before[l].start, end: before[r].end };
    let shift = |j: int|
        if j >= r {
            j + 1
        } else {
            j
        };
    let at: int = if l < r {
        l
    } else {
        l - 1
    };
    assert(before[l].start < before[l].end && before[r].start < before[r].end);
    assert(l != r);
    assert(shift(at) == l);
    assert(after[at] == joined);
    assert forall|j: int| 0 <= j < after.len() && j != at implies (#[trigger] after[j])
        == before[shift(j)] && shift(j) != l && shift(j) != r by {}
    assert forall|j: int| 0 <= j < after.len() implies (#[trigger] after[j]).start
        < after[j].end <= width by {
        if j != at {
            assert(before[shift(j)].start < before[shift(j)].end <= width);
        }
    }
    assert forall|i: int, j: int|
        0 <= i < after.len() && 0 <= j < after.len() && i != j implies (#[trigger] after[i]).end < (
    #[trigger] after[j]).start || after[j].end < after[i].start by {
        let x = if i == at {
            j
        } else {
            i
        };
        assert(before[shift(x)].start < before[shift(x)].end);
        assert(before[shift(x)].end < before[l].start || before[l].end < before[shift(x)].start);
        assert(before[shift(x)].end < before[r].start || before[r].end < before[shift(x)].start);
        if i != at && j != at {
            assert(before[shift(i)].end < before[shift(j)].start || before[shift(j)].end
                < before[shift(i)].start);
        }
    }
    assert(covers(after[at], idx, idx + 1));
    assert forall|lo: int, hi: int| lo < hi && !(lo <= idx < hi) implies covered(after, lo, hi)
        == covered(before, lo, hi) by {
        if covered(before, lo, hi) {
            let j = choose|j: int| 0 <= j < before.len() && #[trigger] covers(before[j], lo, hi);
            if j == l || j == r {
                assert(covers(after[at], lo, hi));
            } else if j > r {
                assert(covers(after[j - 1], lo, hi));
            } else {
                assert(covers(after[j], lo, hi));
            }
        }
        if covered(after, lo, hi) {
            let j = choose|j: int| 0 <= j < after.len() && #[trigger] covers(after[j], lo, hi);
            if j == at {
                if hi <= idx {
                    assert(covers(before[l], lo, hi));
                } else {
                    assert(covers(before[r], lo, hi));
                }
            } else {
                assert(covers(before[shift(j)], lo, hi));
            }
        }
    }
}

/// A free base index with no interval next to it, added as an interval of its
/// own, keeps the intervals well formed and changes nothing for the ranges
/// without that index.
proof fn lemma_added(before: Seq<MerkleRange>, after: Seq<MerkleRange>, width: int, idx: int)
    requires
        intervals_wf(before, width),
        0 <= idx < width,
        after.len() == before.len() + 1,
        forall|j: int| 0 <= j < before.len() ==> after[j] == before[j],
        after[before.len() as int].start == idx,
        after[before.len() as int].end == idx + 1,
        forall|j: int|
            0 <= j < before.len() ==> !((#[trigger] before[j]).start <= idx < before[j].end)
                && before[j].start != idx + 1 && before[j].end != idx,
    ensures
        intervals_wf(after, width),
        covered(after, idx, idx + 1),
        forall|lo: int, hi: int|
            lo < hi && !(lo <= idx < hi) ==> covered(after, lo, hi) == covered(before, lo, hi),
{
    let n = before.len() as int;
    assert forall|j: int| 0 <= j < after.len() implies (#[trigger] after[j]).start
        < after[j].end <= width by {
        if j < n {
            assert(before[j].start < before[j].end <= width);
        }
    }
    assert forall|i: int, j: int|
        0 <= i < after.len() && 0 <= j < after.len() && i != j implies (#[trigger] after[i]).end < (
    #[trigger] after[j]).start || after[j].end < after[i].start by {
        if i < n && j < n {
            assert(before[i].end < before[j].start || before[j].end < before[i].start);
        } else {
            let x = if i < n {
                i
            } else {
                j
            };
            assert(before[x].start < before[x].end);
        }
    }
    assert(covers(after[n], idx, idx + 1));
    assert forall|lo: int, hi: int| lo < hi && !(lo <= idx < hi) implies covered(after, lo, hi)
        == covered(before, lo, hi) by {
        if covered(before, lo, hi) {
            let j = choose|j: int| 0 <= j < before.len() && #[trigger] covers(before[j], lo, hi);
            assert(covers(after[j], lo, hi));
        }
        if covered(after, lo, hi) {
            let j = choose|j: int| 0 <= j < after.len() && #[trigger] covers(after[j], lo, hi);
            assert(covers(before[j], lo, hi));
        }
    }
}

/// An interval that grows by the one free base index next to it, with no
/// other interval next to that index, keeps the intervals well formed and
/// changes nothing for the ranges without that index.
proof fn lemma_grown(before: Seq<MerkleRange>, after: Seq<MerkleRange>, width: int, idx: int, k: int)
    requires
        intervals_wf(before, width),
        0 <= idx < width,
        0 <= k < before.len(),
        after.len() == before.len(),
        forall|j: int| 0 <= j < before.len() && j != k ==> after[j] == before[j],
        forall|j: int|
            0 <= j < before.len() ==> !((#[trigger] before[j]).start <= idx < before[j].end),
        forall|j: int|
            0 <= j < before.len() && j != k ==> (#[trigger] before[j]).start != idx + 1
                && before[j].end != idx,
        (after[k].start == before[k].start && before[k].end == idx && after[k].end == idx + 1) || (
        after[k].end == before[k].end && before[k].start == idx + 1 && after[k].start == idx),
    ensures
        intervals_wf(after, width),
        covered(after, idx, idx + 1),
        forall|lo: int, hi: int|
            lo < hi && !(lo <= idx < hi) ==> covered(after, lo, hi) == covered(before, lo, hi),
{
    assert forall|j: int| 0 <= j < after.len() implies (#[trigger] after[j]).start
        < after[j].end <= width by {
        assert(before[j].start < before[j].end <= width);
    }
    assert forall|i: int, j: int|
        0 <= i < after.len() && 0 <= j < after.len() && i != j implies (#[trigger] after[i]).end < (
    #[trigger] after[j]).start || after[j].end < after[i].start by {
        assert(before[i].end < before[j].start || before[j].end < before[i].start);
        assert(before[i].start < before[i].end && before[j].start < before[j].end);
    }
    assert(covers(after[k], idx, idx + 1));
    assert forall|lo: int, hi: int| lo < hi && !(lo <= idx < hi) implies covered(after, lo, hi)
        == covered(before, lo, hi) by {
        if covered(before, lo, hi) {
            let j = choose|j: int| 0 <= j < before.len() && #[trigger] covers(before[j], lo, hi);
            assert(covers(after[j], lo, hi));
        }
        if covered(after, lo, hi) {
            let j = choose|j: int| 0 <= j < after.len() && #[trigger] covers(after[j], lo, hi);
            assert(covers(before[j], lo, hi));
        }
    }
}

} // verus!
