use vstd::prelude::*;

use crate::automata::{insert_transition, State, Transition, Trigger};
use crate::error::CheckerError;

verus! {

/// Whether the inclusive range `r` contains the symbol `c`.
pub open spec fn covers(r: (u32, u32), c: int) -> bool {
    r.0 <= c <= r.1
}

/// Whether some range of `s` contains the symbol `c`.
pub open spec fn seq_covers(s: Seq<(u32, u32)>, c: int) -> bool {
    exists|k: int| 0 <= k < s.len() && #[trigger] covers(s[k], c)
}

/// Every range of `s` is non-empty (its start is not after its end).
pub open spec fn all_valid(s: Seq<(u32, u32)>) -> bool {
    forall|k: int| 0 <= k < s.len() ==> #[trigger] s[k].0 <= s[k].1
}

/// No range of `s` ends at `u32::MAX`, so that the symbol after each range is representable.
pub open spec fn ends_below_max(s: Seq<(u32, u32)>) -> bool {
    forall|k: int| 0 <= k < s.len() ==> #[trigger] s[k].1 < u32::MAX
}

/// The canonical decomposition of a set of symbols: non-empty ranges in increasing order,
/// separated by at least one symbol that is not covered.
pub open spec fn canonical(s: Seq<(u32, u32)>) -> bool {
    &&& all_valid(s)
    &&& forall|i: int, j: int| 0 <= i < j < s.len() ==> #[trigger] s[i].1 + 1 < #[trigger] s[j].0
}

/// The ranges of `s` appear in non-decreasing order of their start.
pub open spec fn sorted_by_start(s: Seq<(u32, u32)>) -> bool {
    forall|i: int, j: int| 0 <= i < j < s.len() ==> #[trigger] s[i].0 <= #[trigger] s[j].0
}

/// Two ranges overlap when the start of one of them lies inside the other.
pub open spec fn overlap(a: (u32, u32), b: (u32, u32)) -> bool {
    (a.0 <= b.0 && b.0 <= a.1) || (b.0 <= a.0 && a.0 <= b.1)
}

/// Whether two ranges at distinct positions of `s` overlap.
pub open spec fn has_overlap(s: Seq<(u32, u32)>) -> bool {
    exists|i: int, j: int| 0 <= i < j < s.len() && #[trigger] overlap(s[i], s[j]) && i < j
}

/// The symbols that `missing_ranges(existing, min_symbol, max_symbol)` reports: those not covered
/// by `existing` that are at least `min_symbol` or lie above some covered symbol, and that are at
/// most `max_symbol` or lie below some covered symbol.
pub open spec fn is_missing(existing: Seq<(u32, u32)>, min_symbol: int, max_symbol: int, c: int) -> bool {
    &&& !seq_covers(existing, c)
    &&& (c >= min_symbol || exists|p: int| p < c && seq_covers(existing, p))
    &&& (c <= max_symbol || exists|p: int| p > c && seq_covers(existing, p))
}

/// Intersects the ranges of two triggers. Fails unless both triggers are ranges.
pub fn intersect_ranges(r1: Trigger, r2: Trigger) -> (res: Result<Option<(u32, u32)>, CheckerError>)
    ensures
        match (r1, r2) {
            (Trigger::Range(a0, a1), Trigger::Range(b0, b1)) => {
                let a = (a0, a1);
                let b = (b0, b1);
                let a32 = (a.0 as u32, a.1 as u32);
                let b32 = (b.0 as u32, b.1 as u32);
                match res {
                    Ok(Some(r)) => {
                        &&& r.0 <= r.1
                        &&& r.0 == (if a.0 >= b.0 { a.0 } else { b.0 })
                        &&& r.1 == (if a.1 <= b.1 { a.1 } else { b.1 })
                        &&& forall|c: int| covers(r, c) <==> (covers(a32, c) && covers(b32, c))
                    },
                    Ok(None) => forall|c: int| !(covers(a32, c) && covers(b32, c)),
                    Err(_) => false,
                }
            },
            _ => res == Err::<Option<(u32, u32)>, CheckerError>(
                CheckerError::ExpectedRangesToCalculateTheIntersection(r1, r2),
            ),
        },
{
    match (r1, r2) {
        (Trigger::Range(a0, a1), Trigger::Range(b0, b1)) => {
            let start: u32 = if a0 >= b0 { a0 as u32 } else { b0 as u32 };
            let end: u32 = if a1 <= b1 { a1 as u32 } else { b1 as u32 };
            if start <= end {
                Ok(Some((start, end)))
            } else {
                Ok(None)
            }
        },
        _ => Err(CheckerError::ExpectedRangesToCalculateTheIntersection(r1, r2)),
    }
}

proof fn lemma_multiset_insert_at(s: Seq<(u32, u32)>, j: int, x: (u32, u32))
    requires
        0 <= j <= s.len(),
    ensures
        s.insert(j, x).to_multiset() =~= s.to_multiset().insert(x),
{
    broadcast use vstd::seq_lib::group_seq_properties, vstd::multiset::group_multiset_axioms;

    let t = s.insert(j, x);
    assert(t.remove(j) =~= s);
    t.to_multiset_ensures();
    assert(t[j] == x);
    assert(t.to_multiset().count(x) > 0);
}

/// Sorts ranges by their start, keeping the relative order of ranges with equal starts.
fn sort_by_start(v: &Vec<(u32, u32)>) -> (r: Vec<(u32, u32)>)
    ensures
        r@.to_multiset() =~= v@.to_multiset(),
        r@.len() == v@.len(),
        sorted_by_start(r@),
{
    broadcast use vstd::seq_lib::group_seq_properties;

    let mut r: Vec<(u32, u32)> = Vec::new();
    let n = v.len();
    for i in 0..n
        invariant
            n == v.len(),
            sorted_by_start(r@),
            r@.to_multiset() =~= v@.subrange(0, i as int).to_multiset(),
    {
        let x = v[i];
        let mut j = r.len();
        while j > 0 && r[j - 1].0 > x.0
            invariant
                j <= r.len(),
                forall|k: int| j <= k < r.len() ==> r@[k].0 > x.0,
            decreases j,
        {
            j = j - 1;
        }
        proof {
            lemma_multiset_insert_at(r@, j as int, x);
            assert(v@.subrange(0, i + 1) =~= v@.subrange(0, i as int).push(x));
            v@.subrange(0, i as int).to_multiset_ensures();
        }
        let ghost old_r = r@;
        r.insert(j, x);
        assert(r@ =~= old_r.insert(j as int, x));
        assert(sorted_by_start(r@)) by {
            assert forall|a: int, b: int| 0 <= a < b < r@.len() implies #[trigger] r@[a].0
                <= #[trigger] r@[b].0 by {
                if b < j {
                } else if b == j {
                    if a < j {
                        assert(old_r[a].0 <= old_r[j - 1].0);
                    }
                } else if a < j {
                    assert(old_r[a].0 <= old_r[b - 1].0);
                } else if a == j {
                    assert(old_r[b - 1].0 > x.0);
                } else {
                    assert(old_r[a - 1].0 <= old_r[b - 1].0);
                }
            }
        }
    }
    assert(v@.subrange(0, n as int) =~= v@);
    proof {
        r@.to_multiset_ensures();
        v@.to_multiset_ensures();
    }
    r
}

proof fn lemma_same_multiset_same_elems(a: Seq<(u32, u32)>, b: Seq<(u32, u32)>)
    requires
        a.to_multiset() =~= b.to_multiset(),
    ensures
        forall|x: (u32, u32)| a.contains(x) <==> b.contains(x),
{
    a.to_multiset_ensures();
    b.to_multiset_ensures();
    assert forall|x: (u32, u32)| a.contains(x) <==> b.contains(x) by {
        assert(a.to_multiset().count(x) == b.to_multiset().count(x));
    }
}

proof fn lemma_covers_same_elems(a: Seq<(u32, u32)>, b: Seq<(u32, u32)>)
    requires
        forall|x: (u32, u32)| a.contains(x) <==> b.contains(x),
    ensures
        forall|c: int| seq_covers(a, c) <==> seq_covers(b, c),
        all_valid(a) <==> all_valid(b),
        ends_below_max(a) <==> ends_below_max(b),
{
    assert forall|c: int| seq_covers(a, c) implies seq_covers(b, c) by {
        let k = choose|k: int| 0 <= k < a.len() && #[trigger] covers(a[k], c);
        assert(a.contains(a[k]));
        let m = choose|m: int| 0 <= m < b.len() && b[m] == a[k];
        assert(covers(b[m], c));
    }
    assert forall|c: int| seq_covers(b, c) implies seq_covers(a, c) by {
        let k = choose|k: int| 0 <= k < b.len() && #[trigger] covers(b[k], c);
        assert(b.contains(b[k]));
        let m = choose|m: int| 0 <= m < a.len() && a[m] == b[k];
        assert(covers(a[m], c));
    }
    if all_valid(a) {
        assert forall|k: int| 0 <= k < b.len() implies #[trigger] b[k].0 <= b[k].1 by {
            assert(b.contains(b[k]));
        }
    }
    if all_valid(b) {
        assert forall|k: int| 0 <= k < a.len() implies #[trigger] a[k].0 <= a[k].1 by {
            assert(a.contains(a[k]));
        }
    }
    if ends_below_max(a) {
        assert forall|k: int| 0 <= k < b.len() implies #[trigger] b[k].1 < u32::MAX by {
            assert(b.contains(b[k]));
        }
    }
    if ends_below_max(b) {
        assert forall|k: int| 0 <= k < a.len() implies #[trigger] a[k].1 < u32::MAX by {
            assert(a.contains(a[k]));
        }
    }
}

/// Whether one of the first `n` ranges of `s` contains `c`.
pub open spec fn prefix_covers(s: Seq<(u32, u32)>, n: int, c: int) -> bool {
    exists|k: int| 0 <= k < n && #[trigger] covers(s[k], c)
}

/// Merges ranges into the canonical decomposition of the symbols they cover.
fn normalize_ranges(ranges: Vec<(u32, u32)>) -> (result: Vec<(u32, u32)>)
    requires
        ends_below_max(ranges@),
    ensures
        ends_below_max(result@),
        forall|c: int| seq_covers(result@, c) <==> seq_covers(ranges@, c),
        all_valid(ranges@) ==> canonical(result@),
{
    if ranges.len() == 0 {
        return ranges;
    }
    let sorted = sort_by_start(&ranges);
    proof {
        lemma_same_multiset_same_elems(sorted@, ranges@);
        lemma_covers_same_elems(sorted@, ranges@);
    }
    let mut result: Vec<(u32, u32)> = Vec::new();
    result.push(sorted[0]);
    let n = sorted.len();
    proof {
        assert forall|c: int| seq_covers(result@, c) <==> prefix_covers(sorted@, 1, c) by {
            if seq_covers(result@, c) {
                let k = choose|k: int| 0 <= k < result@.len() && #[trigger] covers(result@[k], c);
                assert(covers(sorted@[0], c));
            }
            if prefix_covers(sorted@, 1, c) {
                assert(covers(result@[0], c));
            }
        }
        assert(result@.last().0 == sorted@[0].0);
    }
    for i in 1..n
        invariant
            n == sorted.len(),
            n > 0,
            sorted_by_start(sorted@),
            ends_below_max(sorted@),
            result@.len() > 0,
            ends_below_max(result@),
            forall|c: int| seq_covers(result@, c) <==> prefix_covers(sorted@, i as int, c),
            exists|m: int| 0 <= m < i && result@.last().0 == #[trigger] sorted@[m].0,
            all_valid(sorted@) ==> canonical(result@),
    {
        let (l, r) = sorted[i];
        let last_index = result.len() - 1;
        let last = result[last_index];
        let ghost old_result = result@;
        assert(last.0 <= l) by {
            let m = choose|m: int| 0 <= m < i && result@.last().0 == #[trigger] sorted@[m].0;
            assert(sorted@[m].0 <= sorted@[i as int].0);
        }
        if l <= last.1 + 1 {
            let new_end = if last.1 >= r { last.1 } else { r };
            result.set(last_index, (last.0, new_end));
            proof {
                assert(result@ =~= old_result.update(last_index as int, (last.0, new_end)));
                assert forall|c: int| seq_covers(result@, c) <==> prefix_covers(sorted@, i + 1, c) by {
                    if seq_covers(result@, c) {
                        let k = choose|k: int| 0 <= k < result@.len() && #[trigger] covers(result@[k], c);
                        if k == last_index {
                            if covers(last, c) {
                                assert(seq_covers(old_result, c));
                                let k2 = choose|k2: int| 0 <= k2 < i && #[trigger] covers(sorted@[k2], c);
                            } else {
                                assert(covers(sorted@[i as int], c));
                            }
                        } else {
                            assert(covers(old_result[k], c));
                            assert(seq_covers(old_result, c));
                            let k2 = choose|k2: int| 0 <= k2 < i && #[trigger] covers(sorted@[k2], c);
                        }
                    }
                    if prefix_covers(sorted@, i + 1, c) {
                        let k = choose|k: int| 0 <= k < i + 1 && #[trigger] covers(sorted@[k], c);
                        if k == i {
                            assert(covers(result@[last_index as int], c));
                        } else {
                            assert(prefix_covers(sorted@, i as int, c));
                            assert(seq_covers(old_result, c));
                            let k2 = choose|k2: int| 0 <= k2 < old_result.len() && #[trigger] covers(old_result[k2], c);
                            if k2 == last_index {
                                assert(covers(result@[k2], c));
                            } else {
                                assert(covers(result@[k2], c));
                            }
                        }
                    }
                }
                let m = choose|m: int| 0 <= m < i && old_result.last().0 == #[trigger] sorted@[m].0;
                assert(result@.last().0 == sorted@[m].0);
                if all_valid(sorted@) {
                    assert(sorted@[i as int].0 <= sorted@[i as int].1);
                    assert forall|a: int, b: int| 0 <= a < b < result@.len() implies #[trigger] result@[a].1 + 1
                        < #[trigger] result@[b].0 by {
                        assert(old_result[a].1 + 1 < old_result[b].0);
                    }
                }
            }
        } else {
            result.push((l, r));
            proof {
                assert(result@ =~= old_result.push((l, r)));
                assert forall|c: int| seq_covers(result@, c) <==> prefix_covers(sorted@, i + 1, c) by {
                    if seq_covers(result@, c) {
                        let k = choose|k: int| 0 <= k < result@.len() && #[trigger] covers(result@[k], c);
                        if k == old_result.len() {
                            assert(covers(sorted@[i as int], c));
                        } else {
                            assert(covers(old_result[k], c));
                            assert(seq_covers(old_result, c));
                            let k2 = choose|k2: int| 0 <= k2 < i && #[trigger] covers(sorted@[k2], c);
                        }
                    }
                    if prefix_covers(sorted@, i + 1, c) {
                        let k = choose|k: int| 0 <= k < i + 1 && #[trigger] covers(sorted@[k], c);
                        if k == i {
                            assert(covers(result@[old_result.len() as int], c));
                        } else {
                            assert(prefix_covers(sorted@, i as int, c));
                            assert(seq_covers(old_result, c));
                            let k2 = choose|k2: int| 0 <= k2 < old_result.len() && #[trigger] covers(old_result[k2], c);
                            assert(covers(result@[k2], c));
                        }
                    }
                }
                assert(result@.last().0 == sorted@[i as int].0);
                if all_valid(sorted@) {
                    assert(sorted@[i as int].0 <= sorted@[i as int].1);
                    assert forall|a: int, b: int| 0 <= a < b < result@.len() implies #[trigger] result@[a].1 + 1
                        < #[trigger] result@[b].0 by {
                        if b == old_result.len() {
                            if a < last_index {
                                assert(old_result[a].1 + 1 < old_result[last_index as int].0);
                            }
                        } else {
                            assert(old_result[a].1 + 1 < old_result[b].0);
                        }
                    }
                }
            }
        }
    }
    proof {
        assert forall|c: int| seq_covers(result@, c) <==> seq_covers(sorted@, c) by {
            if prefix_covers(sorted@, n as int, c) {
                let k = choose|k: int| 0 <= k < n && #[trigger] covers(sorted@[k], c);
            }
            if seq_covers(sorted@, c) {
                let k = choose|k: int| 0 <= k < sorted@.len() && #[trigger] covers(sorted@[k], c);
                assert(prefix_covers(sorted@, n as int, c));
            }
        }
    }
    result
}

/// Whether `c` lies below the start of one of the first `k` ranges of `nz`.
pub open spec fn before_some(nz: Seq<(u32, u32)>, k: int, c: int) -> bool {
    exists|j: int| 0 <= j < k && c < #[trigger] nz[j].0
}

/// The symbols reported as missing once the first `k` ranges of `nz` have been visited.
pub open spec fn hole_pred(nz: Seq<(u32, u32)>, min_symbol: int, k: int, c: int) -> bool {
    &&& !seq_covers(nz, c)
    &&& (c >= min_symbol || exists|p: int| p < c && seq_covers(nz, p))
    &&& before_some(nz, k, c)
}

/// In a canonical decomposition, a symbol strictly between the ranges at positions `k - 1` and
/// `k` is not covered.
proof fn lemma_gap_uncovered(nz: Seq<(u32, u32)>, k: int, c: int)
    requires
        canonical(nz),
        0 <= k <= nz.len(),
        k == 0 || c > nz[k - 1].1,
        k == nz.len() || c < nz[k].0,
    ensures
        !seq_covers(nz, c),
{
    assert forall|m: int| 0 <= m < nz.len() implies !#[trigger] covers(nz[m], c) by {
        if m < k - 1 {
            assert(nz[m].1 + 1 < nz[k - 1].0);
        } else if m > k {
            assert(nz[k].1 + 1 < nz[m].0);
        }
    }
}

/// In a canonical decomposition, a covered symbol below `nz[k].0` lies in one of the first `k`
/// ranges.
proof fn lemma_covered_below(nz: Seq<(u32, u32)>, k: int, p: int)
    requires
        canonical(nz),
        0 <= k < nz.len(),
        p < nz[k].0,
        seq_covers(nz, p),
    ensures
        k > 0 && p <= nz[k - 1].1,
{
    let m = choose|m: int| 0 <= m < nz.len() && #[trigger] covers(nz[m], p);
    if m > k {
        assert(nz[k].1 + 1 < nz[m].0);
    }
    if m < k - 1 {
        assert(nz[m].1 + 1 < nz[k - 1].0);
    }
}

/// Computes the ranges of symbols that `existing` leaves uncovered.
///
/// The holes are reported in increasing order, starting at `min_symbol` and ending at
/// `max_symbol`; a gap between two covered ranges is always reported, even where it lies outside
/// `[min_symbol, max_symbol]`.
pub fn missing_ranges(existing: &[(u32, u32)], min_symbol: u32, max_symbol: u32) -> (holes: Vec<(u32, u32)>)
    requires
        ends_below_max(existing@),
    ensures
        all_valid(existing@) ==> canonical(holes@),
        all_valid(existing@) ==> forall|c: int|
            seq_covers(holes@, c) <==> is_missing(existing@, min_symbol as int, max_symbol as int, c),
{
    let mut copied: Vec<(u32, u32)> = Vec::new();
    for k in 0..existing.len()
        invariant
            copied@ =~= existing@.subrange(0, k as int),
    {
        copied.push(existing[k]);
    }
    assert(copied@ =~= existing@);
    let normalized = normalize_ranges(copied);
    let mut holes: Vec<(u32, u32)> = Vec::new();
    let mut cursor = min_symbol;
    let n = normalized.len();
    let ghost valid = all_valid(existing@);
    let ghost nz = normalized@;

    for k in 0..n
        invariant
            n == normalized.len(),
            nz == normalized@,
            valid == all_valid(existing@),
            ends_below_max(nz),
            forall|c: int| seq_covers(nz, c) <==> seq_covers(existing@, c),
            valid ==> canonical(nz),
            cursor == (if k == 0 { min_symbol as int } else { nz[k - 1].1 + 1 }),
            valid ==> canonical(holes@),
            valid && holes@.len() > 0 ==> holes@.last().1 + 1 < cursor,
            valid && k == 0 ==> holes@.len() == 0,
            valid ==> forall|c: int| #![trigger seq_covers(holes@, c)] #![trigger hole_pred(nz, min_symbol as int, k as int, c)]
                seq_covers(holes@, c) <==> hole_pred(nz, min_symbol as int, k as int, c),
    {
        let (l, r) = normalized[k];
        let ghost old_holes = holes@;
        let ghost old_cursor = cursor as int;
        if cursor < l {
            holes.push((cursor, l - 1));
        }
        proof {
            if valid {
                let kk = k as int;
                assert(nz[kk].0 <= nz[kk].1);
                if kk > 0 {
                    assert(nz[kk - 1].1 + 1 < nz[kk].0);
                }
                assert forall|c: int| #![trigger seq_covers(holes@, c)] #![trigger hole_pred(nz, min_symbol as int, kk + 1, c)]
                    seq_covers(holes@, c) <==> hole_pred(nz, min_symbol as int, kk + 1, c) by {
                    if seq_covers(holes@, c) {
                        let h = choose|h: int| 0 <= h < holes@.len() && #[trigger] covers(holes@[h], c);
                        if h == old_holes.len() {
                            lemma_gap_uncovered(nz, kk, c);
                            assert(c < nz[kk].0);
                            if kk > 0 {
                                assert(covers(nz[kk - 1], nz[kk - 1].1 as int));
                                assert(seq_covers(nz, nz[kk - 1].1 as int));
                            }
                        } else {
                            assert(covers(old_holes[h], c));
                            assert(seq_covers(old_holes, c));
                            assert(hole_pred(nz, min_symbol as int, kk, c));
                            let j = choose|j: int| 0 <= j < kk && c < #[trigger] nz[j].0;
                            assert(0 <= j < kk + 1 && c < nz[j].0);
                        }
                    }
                    if hole_pred(nz, min_symbol as int, kk + 1, c) {
                        if before_some(nz, kk, c) {
                            assert(hole_pred(nz, min_symbol as int, kk, c));
                            assert(seq_covers(old_holes, c));
                            let h = choose|h: int| 0 <= h < old_holes.len() && #[trigger] covers(old_holes[h], c);
                            assert(covers(holes@[h], c));
                        } else {
                            let j = choose|j: int| 0 <= j < kk + 1 && c < #[trigger] nz[j].0;
                            assert(j == kk);
                            if kk > 0 {
                                assert(!(c < nz[kk - 1].0));
                                assert(!covers(nz[kk - 1], c));
                            } else if c < min_symbol {
                                let p = choose|p: int| p < c && seq_covers(nz, p);
                                lemma_covered_below(nz, 0, p);
                            }
                            assert(old_cursor <= c);
                            assert(covers(holes@[holes@.len() - 1], c));
                        }
                    }
                }
                assert(canonical(holes@)) by {
                    if holes@.len() > old_holes.len() {
                        assert forall|a: int, b: int| 0 <= a < b < holes@.len() implies #[trigger] holes@[a].1 + 1
                            < #[trigger] holes@[b].0 by {
                            if b == old_holes.len() {
                                if a < old_holes.len() - 1 {
                                    assert(old_holes[a].1 + 1 < old_holes[old_holes.len() - 1].0);
                                }
                            } else {
                                assert(old_holes[a].1 + 1 < old_holes[b].0);
                            }
                        }
                    }
                }
            }
        }
        cursor = r + 1;
    }
    let ghost before_final = holes@;
    if cursor <= max_symbol {
        holes.push((cursor, max_symbol));
    }
    proof {
        if valid {
            let nn = n as int;
            assert forall|c: int| seq_covers(holes@, c) <==> is_missing(
                existing@,
                min_symbol as int,
                max_symbol as int,
                c,
            ) by {
                if seq_covers(holes@, c) {
                    let h = choose|h: int| 0 <= h < holes@.len() && #[trigger] covers(holes@[h], c);
                    if h == before_final.len() {
                        lemma_gap_uncovered(nz, nn, c);
                        if nn > 0 {
                            assert(covers(nz[nn - 1], nz[nn - 1].1 as int));
                            assert(seq_covers(nz, nz[nn - 1].1 as int));
                        }
                    } else {
                        assert(covers(before_final[h], c));
                        assert(seq_covers(before_final, c));
                        assert(hole_pred(nz, min_symbol as int, nn, c));
                        let j = choose|j: int| 0 <= j < nn && c < #[trigger] nz[j].0;
                        assert(covers(nz[j], nz[j].0 as int));
                        assert(seq_covers(nz, nz[j].0 as int));
                    }
                }
                if is_missing(existing@, min_symbol as int, max_symbol as int, c) {
                    if exists|p: int| p > c && seq_covers(nz, p) {
                        let p = choose|p: int| p > c && seq_covers(nz, p);
                        let m = choose|m: int| 0 <= m < nz.len() && #[trigger] covers(nz[m], p);
                        assert(!covers(nz[m], c));
                        assert(c < nz[m].0);
                        assert(before_some(nz, nn, c));
                        assert(hole_pred(nz, min_symbol as int, nn, c));
                        assert(seq_covers(before_final, c));
                        let h = choose|h: int| 0 <= h < before_final.len() && #[trigger] covers(before_final[h], c);
                        assert(covers(holes@[h], c));
                    } else {
                        if nn > 0 {
                            assert(covers(nz[nn - 1], nz[nn - 1].1 as int));
                            assert(seq_covers(nz, nz[nn - 1].1 as int));
                            assert(c > nz[nn - 1].1);
                        }
                        assert(covers(holes@[holes@.len() - 1], c));
                    }
                }
            }
            assert(canonical(holes@)) by {
                if holes@.len() > before_final.len() {
                    assert forall|a: int, b: int| 0 <= a < b < holes@.len() implies #[trigger] holes@[a].1 + 1
                        < #[trigger] holes@[b].0 by {
                        if b == before_final.len() {
                            if a < before_final.len() - 1 {
                                assert(before_final[a].1 + 1 < before_final[before_final.len() - 1].0);
                            }
                        } else {
                            assert(before_final[a].1 + 1 < before_final[b].0);
                        }
                    }
                }
            }
        }
    }
    holes
}

/// Whether two of the given ranges overlap.
pub fn has_overlapping_ranges(ranges: Vec<(u32, u32)>) -> (res: bool)
    ensures
        res == has_overlap(ranges@),
{
    let n = ranges.len();
    for i in 0..n
        invariant
            n == ranges.len(),
            forall|a: int, b: int| 0 <= a < i && a < b < n ==> !#[trigger] overlap(ranges@[a], ranges@[b]),
    {
        for j in i + 1..n
            invariant
                n == ranges.len(),
                i < n,
                forall|a: int, b: int| 0 <= a < i && a < b < n ==> !#[trigger] overlap(ranges@[a], ranges@[b]),
                forall|b: int| i < b < j ==> !#[trigger] overlap(ranges@[i as int], ranges@[b]),
        {
            let a = ranges[i];
            let b = ranges[j];
            if (a.0 <= b.0 && b.0 <= a.1) || (b.0 <= a.0 && a.0 <= b.1) {
                assert(overlap(ranges@[i as int], ranges@[j as int]));
                return true;
            }
        }
    }
    false
}

/// Whether `[a, b]` is a maximal interval of symbols that `missing_ranges` reports.
pub open spec fn maximal_missing(existing: Seq<(u32, u32)>, min_symbol: int, max_symbol: int, a: int, b: int) -> bool {
    &&& a <= b
    &&& forall|c: int| a <= c <= b ==> #[trigger] is_missing(existing, min_symbol, max_symbol, c)
    &&& !is_missing(existing, min_symbol, max_symbol, a - 1)
    &&& !is_missing(existing, min_symbol, max_symbol, b + 1)
}

/// The ranges of a canonical decomposition are exactly the maximal intervals of what it covers.
proof fn lemma_canonical_ranges_are_maximal(
    holes: Seq<(u32, u32)>,
    existing: Seq<(u32, u32)>,
    min_symbol: int,
    max_symbol: int,
)
    requires
        canonical(holes),
        forall|c: int| seq_covers(holes, c) <==> is_missing(existing, min_symbol, max_symbol, c),
    ensures
        forall|a: int, b: int| maximal_missing(existing, min_symbol, max_symbol, a, b) <==> exists|g: int|
            0 <= g < holes.len() && holes[g].0 == a && #[trigger] holes[g].1 == b,
{
    assert forall|a: int, b: int| maximal_missing(existing, min_symbol, max_symbol, a, b) <==> exists|g: int|
        0 <= g < holes.len() && holes[g].0 == a && #[trigger] holes[g].1 == b by {
        if maximal_missing(existing, min_symbol, max_symbol, a, b) {
            assert(is_missing(existing, min_symbol, max_symbol, a));
            assert(seq_covers(holes, a));
            let g = choose|g: int| 0 <= g < holes.len() && #[trigger] covers(holes[g], a);
            if holes[g].0 < a {
                assert(covers(holes[g], a - 1));
                assert(seq_covers(holes, a - 1));
            }
            if holes[g].1 < b {
                assert(is_missing(existing, min_symbol, max_symbol, holes[g].1 + 1));
                assert(seq_covers(holes, holes[g].1 + 1));
                let g2 = choose|g2: int| 0 <= g2 < holes.len() && #[trigger] covers(holes[g2], holes[g].1 + 1);
                if g2 < g {
                    assert(holes[g2].1 + 1 < holes[g].0);
                } else if g2 > g {
                    assert(holes[g].1 + 1 < holes[g2].0);
                }
            }
            if holes[g].1 > b {
                assert(covers(holes[g], b + 1));
                assert(seq_covers(holes, b + 1));
            }
        }
        if exists|g: int| 0 <= g < holes.len() && holes[g].0 == a && #[trigger] holes[g].1 == b {
            let g = choose|g: int| 0 <= g < holes.len() && holes[g].0 == a && #[trigger] holes[g].1 == b;
            assert forall|c: int| a <= c <= b implies #[trigger] is_missing(existing, min_symbol, max_symbol, c) by {
                assert(covers(holes[g], c));
                assert(seq_covers(holes, c));
            }
            if is_missing(existing, min_symbol, max_symbol, a - 1) {
                assert(seq_covers(holes, a - 1));
                let g2 = choose|g2: int| 0 <= g2 < holes.len() && #[trigger] covers(holes[g2], a - 1);
                if g2 < g {
                    assert(holes[g2].1 + 1 < holes[g].0);
                } else if g2 > g {
                    assert(holes[g].1 + 1 < holes[g2].0);
                }
            }
            if is_missing(existing, min_symbol, max_symbol, b + 1) {
                assert(seq_covers(holes, b + 1));
                let g2 = choose|g2: int| 0 <= g2 < holes.len() && #[trigger] covers(holes[g2], b + 1);
                if g2 < g {
                    assert(holes[g2].1 + 1 < holes[g].0);
                } else if g2 > g {
                    assert(holes[g].1 + 1 < holes[g2].0);
                }
            }
        }
    }
}

/// The label of the transition to the sink for a hole.
pub open spec fn hole_trigger(h: (u32, u32)) -> Trigger {
    Trigger::Range(h.0 as u16, h.1 as u16)
}

/// The transitions that `totalize` gives to state `s`, whose sink has index `sink`.
pub open spec fn totalized_transition(s: State, sink: int, t: Transition) -> bool {
    ||| s.transitions@.contains(t)
    ||| t.to == sink && match t.trigger {
        Trigger::Range(a, b) => maximal_missing(s.range_seq(), 0, 255, a as int, b as int),
        Trigger::Epsilon => false,
    }
}

/// Completes a list of states with transitions to a new, non-accepting sink state.
///
/// The sink state is appended at the end and loops on every byte `[0, 255]`; every other state
/// keeps its transitions and gets a transition to the sink for each maximal range of bytes that
/// its ranges leave uncovered (see `missing_ranges`).
pub fn totalize(states: Vec<State>) -> (new_states: Vec<State>)
    ensures
        new_states.len() == states.len() + 1,
        new_states[states.len() as int].id@ == "sink"@,
        !new_states[states.len() as int].accept,
        new_states[states.len() as int].transitions@ == seq![
            Transition { to: states.len(), trigger: Trigger::Range(0, 255) }],
        forall|i: int| #![trigger new_states[i]] 0 <= i < states.len() ==> {
            &&& new_states[i].id@ == states[i].id@
            &&& new_states[i].accept == states[i].accept
            &&& states[i].transitions@.no_duplicates() ==> new_states[i].transitions@.no_duplicates()
            &&& all_valid(states[i].range_seq()) ==> forall|t: Transition| #![trigger new_states[i].transitions@.contains(t)]
                new_states[i].transitions@.contains(t) <==> totalized_transition(states[i], states.len() as int, t)
        },
{
    proof { reveal_strlit("sink"); }
    let sink_id = states.len();
    let mut new_states: Vec<State> = Vec::new();
    let mut i: usize = 0;
    while i < sink_id
        invariant
            sink_id == states.len(),
            i <= sink_id,
            new_states.len() == i,
            forall|k: int| #![trigger new_states[k]] 0 <= k < i ==> {
                &&& new_states[k].id@ == states[k].id@
                &&& new_states[k].accept == states[k].accept
                &&& states[k].transitions@.no_duplicates() ==> new_states[k].transitions@.no_duplicates()
                &&& all_valid(states[k].range_seq()) ==> forall|t: Transition| #![trigger new_states[k].transitions@.contains(t)]
                    new_states[k].transitions@.contains(t) <==> totalized_transition(states[k], sink_id as int, t)
            },
        decreases sink_id - i,
    {
        let state = &states[i];
        let existing_ranges = state.ranges();
        let holes = missing_ranges(existing_ranges.as_slice(), 0, 255);
        let ghost valid = all_valid(existing_ranges@);
        proof {
            if valid {
                lemma_canonical_ranges_are_maximal(holes@, existing_ranges@, 0, 255);
            }
        }
        let mut transitions = state.transitions.clone();
        assert(transitions@ =~= state.transitions@);
        let ghost orig = state.transitions@;
        for h in 0..holes.len()
            invariant
                i < states.len(),
                existing_ranges@ == states[i as int].range_seq(),
                valid == all_valid(existing_ranges@),
                valid ==> canonical(holes@),
                valid ==> forall|c: int| seq_covers(holes@, c) <==> is_missing(existing_ranges@, 0, 255, c),
                orig == states[i as int].transitions@,
                sink_id == states.len(),
                orig.no_duplicates() ==> transitions@.no_duplicates(),
                forall|t: Transition| #![trigger transitions@.contains(t)]
                    transitions@.contains(t) <==> (orig.contains(t) || (
                        t.to == sink_id && exists|g: int| 0 <= g < h
                        && t.trigger == hole_trigger(#[trigger] holes@[g]))),
        {
            let (l, r) = holes[h];
            let t = Transition::new(sink_id, Trigger::Range(l as u16, r as u16));
            insert_transition(&mut transitions, t);
        }
        proof {
            if valid {
                assert forall|t: Transition| transitions@.contains(t) <==> totalized_transition(states[i as int], sink_id as int, t) by {
                    if transitions@.contains(t) && !orig.contains(t) {
                        let g = choose|g: int| 0 <= g < holes@.len() && t.trigger == hole_trigger(#[trigger] holes@[g]);
                        lemma_hole_is_byte_range(holes@, existing_ranges@, g);
                        assert(maximal_missing(existing_ranges@, 0, 255, holes@[g].0 as int, holes@[g].1 as int));
                    }
                    if totalized_transition(states[i as int], sink_id as int, t) && !orig.contains(t) {
                        if let Trigger::Range(a, b) = t.trigger {
                            let g = choose|g: int| 0 <= g < holes@.len() && holes@[g].0 == a && #[trigger] holes@[g].1 == b;
                            assert(t.trigger == hole_trigger(holes@[g]));
                        }
                    }
                }
            }
        }
        let new_state = State { id: state.id.clone(), accept: state.accept, transitions };
        let ghost old_new_states = new_states@;
        new_states.push(new_state);
        proof {
            assert(new_states@ =~= old_new_states.push(new_state));
            assert(new_states[i as int].id@ == states[i as int].id@);
        }
        i = i + 1;
    }
    let mut sink_transitions: Vec<Transition> = Vec::new();
    sink_transitions.push(Transition::new(sink_id, Trigger::Range(0, 255)));
    let sink_state = State { id: String::from_str("sink"), accept: false, transitions: sink_transitions };
    let ghost before_sink = new_states@;
    new_states.push(sink_state);
    assert(new_states@ =~= before_sink.push(sink_state));
    assert forall|k: int| 0 <= k < states.len() implies #[trigger] new_states@[k] == before_sink[k] by {}
    new_states
}

/// Every hole reported for ranges of 16-bit symbols is itself a range of 16-bit symbols.
proof fn lemma_hole_is_byte_range(holes: Seq<(u32, u32)>, existing: Seq<(u32, u32)>, g: int)
    requires
        0 <= g < holes.len(),
        canonical(holes),
        forall|c: int| seq_covers(holes, c) <==> is_missing(existing, 0, 255, c),
        forall|k: int| 0 <= k < existing.len() ==> #[trigger] existing[k].1 <= 0xffff,
    ensures
        holes[g].0 <= holes[g].1 <= 0xffff,
{
    assert(covers(holes[g], holes[g].1 as int));
    assert(seq_covers(holes, holes[g].1 as int));
    if holes[g].1 > 255 {
        let p = choose|p: int| p > holes[g].1 && seq_covers(existing, p);
        let m = choose|m: int| 0 <= m < existing.len() && #[trigger] covers(existing[m], p);
    }
}

} // verus!
