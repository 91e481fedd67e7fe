//! Interval algebra: pairwise intersection and merge, sequential merging
//! of a sorted interval list, and the bounding span of a collection.

use crate::structs::{Coordinates, Interval, Named};
use crate::text::dec_rep;
use vstd::math::{max, min};
use vstd::prelude::*;

verus! {

/// The overlap length of two half-open spans, counting touching spans
/// (overlap of exactly zero) as overlapping.
pub open spec fn overlap_len(start1: u64, end1: u64, start2: u64, end2: u64) -> Option<u64> {
    if min(end1 as int, end2 as int) >= max(start1 as int, start2 as int) {
        Some((min(end1 as int, end2 as int) - max(start1 as int, start2 as int)) as u64)
    } else {
        None
    }
}

/// Assesses the intersection of two numeric half-open intervals: the size
/// of the overlap when they intersect or touch, and nothing otherwise.
pub fn intersection(start1: u64, end1: u64, start2: u64, end2: u64) -> (r: Option<u64>)
    ensures
        r == overlap_len(start1, end1, start2, end2),
{
    let min_end: u64 = if end1 > end2 {
        end2
    } else {
        end1
    };
    let max_start: u64 = if start1 > start2 {
        start1
    } else {
        start2
    };
    min_end.checked_sub(max_start)
}

/// Both span bounds of a coordinate carrier are set.
pub open spec fn span_defined<T: Coordinates>(t: T) -> bool {
    t.spec_start() is Some && t.spec_end() is Some
}

/// Merges two overlapping (or touching) coordinate carriers into a single
/// spanning interval; chromosome and name are left for the caller.
pub fn merge<T: Coordinates>(inter1: T, inter2: T) -> (r: Option<Interval>)
    requires
        span_defined(inter1),
        span_defined(inter2),
    ensures
        r is Some <==> overlap_len(
            inter1.spec_start()->0,
            inter1.spec_end()->0,
            inter2.spec_start()->0,
            inter2.spec_end()->0,
        ) is Some,
        r matches Some(m) ==> {
            &&& m.start == Some(
                min(inter1.spec_start()->0 as int, inter2.spec_start()->0 as int) as u64,
            )
            &&& m.end == Some(max(inter1.spec_end()->0 as int, inter2.spec_end()->0 as int) as u64)
            &&& m.chrom is None
            &&& m.name is None
        },
{
    let s1 = *inter1.start().unwrap();
    let e1 = *inter1.end().unwrap();
    let s2 = *inter2.start().unwrap();
    let e2 = *inter2.end().unwrap();
    match intersection(s1, e1, s2, e2) {
        None => None,
        Some(_) => {
            let mut merged: Interval = Interval::new();
            let merged_start = if s1 > s2 {
                s2
            } else {
                s1
            };
            merged.update_start(merged_start);
            let merged_end = if e1 > e2 {
                e1
            } else {
                e2
            };
            merged.update_end(merged_end);
            Some(merged)
        },
    }
}

/// The coordinate model of one carrier: chromosome, start, end.
pub open spec fn coord_model<T: Coordinates>(t: T) -> (Seq<char>, u64, u64) {
    (t.spec_chrom()->0, t.spec_start()->0, t.spec_end()->0)
}

/// The coordinate models of a whole sequence of carriers.
pub open spec fn coord_models<T: Coordinates>(s: Seq<T>) -> Seq<(Seq<char>, u64, u64)> {
    s.map_values(|t: T| coord_model(t))
}

/// Sequential merging of interval models: each model either extends the
/// last output span when it overlaps or touches it, or opens a new output
/// span. Every input is represented in the output.
pub open spec fn merge_fold(s: Seq<(Seq<char>, u64, u64)>) -> Seq<(Seq<char>, u64, u64)>
    decreases s.len(),
{
    if s.len() == 0 {
        Seq::empty()
    } else {
        let prev = merge_fold(s.drop_last());
        let cur = s.last();
        if prev.len() == 0 {
            prev.push(cur)
        } else {
            let tail = prev.last();
            if min(tail.2 as int, cur.2 as int) >= max(tail.1 as int, cur.1 as int) {
                prev.drop_last().push(
                    (cur.0, min(tail.1 as int, cur.1 as int) as u64, max(
                        tail.2 as int,
                        cur.2 as int,
                    ) as u64),
                )
            } else {
                prev.push(cur)
            }
        }
    }
}

/// The coordinate models of a produced interval list.
pub open spec fn interval_models(s: Seq<Interval>) -> Seq<(Seq<char>, u64, u64)> {
    s.map_values(|iv: Interval| (iv.chrom->0@, iv.start->0, iv.end->0))
}

/// Merges all overlapping or touching intervals in a list that is sorted
/// by `(start, end)`, producing one interval per maximal run. Every input
/// interval, merged or standalone, is represented in the output.
pub fn merge_multiple<T: Coordinates>(intervals: &Vec<T>) -> (r: Vec<Interval>)
    requires
        forall|i: int|
            0 <= i < intervals@.len() ==> ((#[trigger] intervals@[i]).spec_chrom() is Some
                && intervals@[i].spec_start() is Some && intervals@[i].spec_end() is Some),
    ensures
        interval_models(r@) == merge_fold(coord_models(intervals@)),
        forall|k: int|
            0 <= k < r@.len() ==> ((#[trigger] r@[k]).chrom is Some && r@[k].start is Some
                && r@[k].end is Some && r@[k].name is None),
{
    let mut out_vec: Vec<Interval> = Vec::new();
    let mut idx: usize = 0;
    proof {
        assert(coord_models(intervals@).take(0) =~= Seq::empty());
        assert(interval_models(out_vec@) =~= Seq::empty());
    }
    while idx < intervals.len()
        invariant
            0 <= idx <= intervals@.len(),
            forall|i: int|
                0 <= i < intervals@.len() ==> ((#[trigger] intervals@[i]).spec_chrom() is Some
                    && intervals@[i].spec_start() is Some && intervals@[i].spec_end() is Some),
            interval_models(out_vec@) == merge_fold(coord_models(intervals@).take(idx as int)),
            forall|k: int|
                0 <= k < out_vec@.len() ==> ((#[trigger] out_vec@[k]).chrom is Some
                    && out_vec@[k].start is Some && out_vec@[k].end is Some
                    && out_vec@[k].name is None),
        decreases intervals@.len() - idx,
    {
        let el = &intervals[idx];
        let curr_start = *el.start().unwrap();
        let curr_end = *el.end().unwrap();
        let curr_chrom = el.chrom().unwrap().clone();
        proof {
            assert(coord_models(intervals@).take(idx + 1).drop_last() =~= coord_models(
                intervals@,
            ).take(idx as int));
            assert(coord_models(intervals@).take(idx + 1).last() == coord_model(
                intervals@[idx as int],
            ));
        }
        if out_vec.len() > 0 {
            let prev_start = out_vec[out_vec.len() - 1].start.unwrap();
            let prev_end = out_vec[out_vec.len() - 1].end.unwrap();
            proof {
                assert(interval_models(out_vec@).last() == (
                    out_vec@.last().chrom->0@,
                    out_vec@.last().start->0,
                    out_vec@.last().end->0,
                ));
            }
            match intersection(prev_start, prev_end, curr_start, curr_end) {
                Some(_) => {
                    let _ = out_vec.pop();
                    let new_start = if prev_start > curr_start {
                        curr_start
                    } else {
                        prev_start
                    };
                    let new_end = if prev_end > curr_end {
                        prev_end
                    } else {
                        curr_end
                    };
                    let mut merged: Interval = Interval::new();
                    merged.update_chrom(curr_chrom);
                    merged.update_start(new_start);
                    merged.update_end(new_end);
                    out_vec.push(merged);
                    proof {
                        let full = merge_fold(coord_models(intervals@).take(idx + 1));
                        assert(interval_models(out_vec@) =~= full);
                    }
                },
                None => {
                    let mut fresh = Interval::new();
                    fresh.update_chrom(curr_chrom);
                    fresh.update_start(curr_start);
                    fresh.update_end(curr_end);
                    out_vec.push(fresh);
                    proof {
                        let full = merge_fold(coord_models(intervals@).take(idx + 1));
                        assert(interval_models(out_vec@) =~= full);
                    }
                },
            }
        } else {
            let mut fresh = Interval::new();
            fresh.update_chrom(curr_chrom);
            fresh.update_start(curr_start);
            fresh.update_end(curr_end);
            out_vec.push(fresh);
            proof {
                let full = merge_fold(coord_models(intervals@).take(idx + 1));
                assert(interval_models(out_vec@) =~= full);
            }
        }
        idx += 1;
    }
    proof {
        assert(coord_models(intervals@).take(intervals@.len() as int) =~= coord_models(
            intervals@,
        ));
    }
    out_vec
}

/// Merging leaves a list of strictly separated, well-ordered spans
/// unchanged: when no two consecutive spans overlap or touch, every input
/// reappears as its own output.
pub proof fn lemma_merge_fold_of_separated(s: Seq<(Seq<char>, u64, u64)>)
    requires
        forall|i: int| 0 <= i < s.len() ==> #[trigger] s[i].1 <= s[i].2,
        forall|i: int| 0 <= i < s.len() - 1 ==> #[trigger] s[i].2 < s[i + 1].1,
    ensures
        merge_fold(s) == s,
    decreases s.len(),
{
    if s.len() > 0 {
        let head = s.drop_last();
        assert(forall|i: int| 0 <= i < head.len() ==> #[trigger] head[i].1 <= head[i].2);
        assert(forall|i: int| 0 <= i < head.len() - 1 ==> #[trigger] head[i].2 < head[i + 1].1);
        lemma_merge_fold_of_separated(head);
        if s.len() == 1 {
            assert(merge_fold(s) =~= s);
        } else {
            let tail = merge_fold(head).last();
            let cur = s.last();
            assert(tail == s[s.len() - 2]);
            assert(tail.2 < cur.1);
            assert(min(tail.2 as int, cur.2 as int) < max(tail.1 as int, cur.1 as int));
            assert(merge_fold(s) =~= s);
        }
    } else {
        assert(merge_fold(s) =~= s);
    }
}

/// Creates one interval spanning all carriers in the list: the least
/// start, the greatest end, the first carrier's chromosome, and a name of
/// the form `chrom:start-end`.
pub fn total_span<T: Coordinates>(intervals: &Vec<T>) -> (r: Interval)
    requires
        intervals@.len() >= 1,
        forall|i: int|
            0 <= i < intervals@.len() ==> ((#[trigger] intervals@[i]).spec_start() is Some
                && intervals@[i].spec_end() is Some),
        intervals@[0].spec_chrom() is Some,
    ensures
        r.chrom matches Some(c) && c@ == intervals@[0].spec_chrom()->0,
        r.start matches Some(s) && (exists|i: int|
            0 <= i < intervals@.len() && #[trigger] intervals@[i].spec_start()->0 == s) && (forall|
            i: int,
        |
            0 <= i < intervals@.len() ==> r.start->0 <= #[trigger] intervals@[i].spec_start()->0),
        r.end matches Some(e) && (exists|i: int|
            0 <= i < intervals@.len() && #[trigger] intervals@[i].spec_end()->0 == e) && (forall|
            i: int,
        |
            0 <= i < intervals@.len() ==> r.end->0 >= #[trigger] intervals@[i].spec_end()->0),
        r.name matches Some(n) && n@ == intervals@[0].spec_chrom()->0 + seq![':'] + dec_rep(
            r.start->0 as int,
        ) + seq!['-'] + dec_rep(r.end->0 as int),
{
    let chrom: String = intervals[0].chrom().unwrap().clone();
    let mut lo: u64 = *intervals[0].start().unwrap();
    let mut hi: u64 = *intervals[0].end().unwrap();
    let mut i: usize = 1;
    while i < intervals.len()
        invariant
            1 <= i <= intervals@.len(),
            forall|k: int|
                0 <= k < intervals@.len() ==> ((#[trigger] intervals@[k]).spec_start() is Some
                    && intervals@[k].spec_end() is Some),
            exists|k: int| 0 <= k < i && #[trigger] intervals@[k].spec_start()->0 == lo,
            exists|k: int| 0 <= k < i && #[trigger] intervals@[k].spec_end()->0 == hi,
            forall|k: int| 0 <= k < i ==> lo <= #[trigger] intervals@[k].spec_start()->0,
            forall|k: int| 0 <= k < i ==> hi >= #[trigger] intervals@[k].spec_end()->0,
        decreases intervals@.len() - i,
    {
        let s = *intervals[i].start().unwrap();
        let e = *intervals[i].end().unwrap();
        if s < lo {
            lo = s;
        }
        if e > hi {
            hi = e;
        }
        i += 1;
    }
    let mut name = chrom.clone();
    crate::text::push_char(&mut name, ':');
    crate::text::push_u64(&mut name, lo);
    crate::text::push_char(&mut name, '-');
    crate::text::push_u64(&mut name, hi);
    proof {
        assert(name@ =~= intervals@[0].spec_chrom()->0 + seq![':'] + dec_rep(lo as int)
            + seq!['-'] + dec_rep(hi as int));
    }
    Interval::from(Some(chrom), Some(lo), Some(hi), Some(name))
}

/// Lexicographic order on `(start, end)` pairs.
pub open spec fn pair_le(a: (u64, u64), b: (u64, u64)) -> bool {
    a.0 < b.0 || (a.0 == b.0 && a.1 <= b.1)
}

/// Insertion of a pair into a sorted pair list.
pub open spec fn insert_sorted(p: (u64, u64), s: Seq<(u64, u64)>) -> Seq<(u64, u64)>
    decreases s.len(),
{
    if s.len() == 0 {
        seq![p]
    } else if pair_le(p, s[0]) {
        seq![p] + s
    } else {
        seq![s[0]] + insert_sorted(p, s.drop_first())
    }
}

/// Insertion sort of a pair list by `(start, end)`.
pub open spec fn sort_pairs(s: Seq<(u64, u64)>) -> Seq<(u64, u64)>
    decreases s.len(),
{
    if s.len() == 0 {
        Seq::empty()
    } else {
        insert_sorted(s.last(), sort_pairs(s.drop_last()))
    }
}

/// A constant chromosome attached to every pair.
pub open spec fn with_chrom(c: Seq<char>, ps: Seq<(u64, u64)>) -> Seq<(Seq<char>, u64, u64)> {
    ps.map_values(|p: (u64, u64)| (c, p.0, p.1))
}

proof fn lemma_insert_sorted_at(p: (u64, u64), s: Seq<(u64, u64)>, j: int)
    requires
        0 <= j <= s.len(),
        forall|k: int| 0 <= k < j ==> !pair_le(p, #[trigger] s[k]),
        j == s.len() || pair_le(p, s[j]),
    ensures
        insert_sorted(p, s) == s.take(j) + seq![p] + s.skip(j),
    decreases j,
{
    if j == 0 {
        assert(s.take(0) =~= Seq::<(u64, u64)>::empty());
        assert(s.skip(0) =~= s);
        if s.len() == 0 {
            assert(insert_sorted(p, s) =~= s.take(0) + seq![p] + s.skip(0));
        } else {
            assert(pair_le(p, s[0]));
            assert(insert_sorted(p, s) =~= s.take(0) + seq![p] + s.skip(0));
        }
    } else {
        assert(!pair_le(p, s[0]));
        lemma_insert_sorted_at(p, s.drop_first(), j - 1);
        assert(s.drop_first().take(j - 1) =~= s.take(j).drop_first());
        assert(s.drop_first().skip(j - 1) =~= s.skip(j));
        assert(insert_sorted(p, s) =~= seq![s[0]] + (s.drop_first().take(j - 1) + seq![p]
            + s.drop_first().skip(j - 1)));
        assert(seq![s[0]] + (s.take(j).drop_first() + seq![p] + s.skip(j)) =~= s.take(j) + seq![p]
            + s.skip(j));
    }
}


/// The insertion position of a pair in a list sorted by `(start, end)`:
/// the first index whose element is not smaller.
fn insert_pos(out: &Vec<Interval>, p: (u64, u64)) -> (j: usize)
    requires
        forall|k: int|
            0 <= k < out@.len() ==> ((#[trigger] out@[k]).start is Some && out@[k].end is Some),
    ensures
        0 <= j <= out@.len(),
        forall|k: int|
            0 <= k < j ==> !pair_le(p, ((#[trigger] out@[k]).start->0, out@[k].end->0)),
        j < out@.len() ==> pair_le(p, (out@[j as int].start->0, out@[j as int].end->0)),
{
    let mut j: usize = 0;
    while j < out.len()
        invariant
            0 <= j <= out@.len(),
            forall|k: int|
                0 <= k < out@.len() ==> ((#[trigger] out@[k]).start is Some
                    && out@[k].end is Some),
            forall|k: int|
                0 <= k < j ==> !pair_le(p, ((#[trigger] out@[k]).start->0, out@[k].end->0)),
        decreases out@.len() - j,
    {
        let cs = out[j].start.unwrap();
        let ce = out[j].end.unwrap();
        if p.0 < cs || (p.0 == cs && p.1 <= ce) {
            return j;
        }
        j += 1;
    }
    j
}

/// Sorts interval pairs ascending by `(start, end)` with insertion sort,
/// carrying one shared chromosome and no name on every output interval.
pub fn sort_intervals(pairs: &Vec<(u64, u64)>, chrom: &String) -> (r: Vec<Interval>)
    ensures
        r@.len() == sort_pairs(pairs@).len(),
        forall|k: int|
            0 <= k < r@.len() ==> {
                let iv = #[trigger] r@[k];
                &&& iv.chrom matches Some(c) && c@ == chrom@
                &&& iv.start == Some(sort_pairs(pairs@)[k].0)
                &&& iv.end == Some(sort_pairs(pairs@)[k].1)
                &&& iv.name is None
            },
{
    let mut out: Vec<Interval> = Vec::new();
    let mut i: usize = 0;
    proof {
        assert(pairs@.take(0) =~= Seq::<(u64, u64)>::empty());
    }
    while i < pairs.len()
        invariant
            0 <= i <= pairs@.len(),
            out@.len() == sort_pairs(pairs@.take(i as int)).len(),
            out@.len() == i,
            forall|k: int|
                0 <= k < out@.len() ==> {
                    let iv = #[trigger] out@[k];
                    &&& iv.chrom matches Some(c) && c@ == chrom@
                    &&& iv.start == Some(sort_pairs(pairs@.take(i as int))[k].0)
                    &&& iv.end == Some(sort_pairs(pairs@.take(i as int))[k].1)
                    &&& iv.name is None
                },
        decreases pairs@.len() - i,
    {
        let p = pairs[i];
        let ghost sorted_pre = sort_pairs(pairs@.take(i as int));
        let j = insert_pos(&out, p);
        proof {
            assert forall|k: int| 0 <= k < j implies !pair_le(p, #[trigger] sorted_pre[k]) by {
                assert(!pair_le(p, (out@[k].start->0, out@[k].end->0)));
                assert(sorted_pre[k].0 == out@[k].start->0 && sorted_pre[k].1 == out@[k].end->0);
            };
            if j < out@.len() {
                assert(pair_le(p, (out@[j as int].start->0, out@[j as int].end->0)));
                assert(sorted_pre[j as int].0 == out@[j as int].start->0 && sorted_pre[j as int].1
                    == out@[j as int].end->0);
                assert(pair_le(p, sorted_pre[j as int]));
            }
            lemma_insert_sorted_at(p, sorted_pre, j as int);
            assert(pairs@.take(i + 1).drop_last() =~= pairs@.take(i as int));
            assert(pairs@.take(i + 1).last() == pairs@[i as int]);
        }
        let iv = Interval::from(Some(chrom.clone()), Some(p.0), Some(p.1), None);
        out.insert(j, iv);
        proof {
            let cur = sort_pairs(pairs@.take(i + 1));
            assert(cur == sorted_pre.take(j as int) + seq![p] + sorted_pre.skip(j as int));
            assert forall|k: int| 0 <= k < out@.len() implies {
                let ivk = #[trigger] out@[k];
                &&& ivk.chrom matches Some(c) && c@ == chrom@
                &&& ivk.start == Some(cur[k].0)
                &&& ivk.end == Some(cur[k].1)
                &&& ivk.name is None
            } by {
                if k < j {
                    assert(cur[k] == sorted_pre[k]);
                } else if k == j {
                    assert(cur[k] == p);
                } else {
                    assert(cur[k] == sorted_pre[k - 1]);
                }
            };
        }
        i += 1;
    }
    proof {
        assert(pairs@.take(pairs@.len() as int) =~= pairs@);
    }
    out
}

/// Every span merging produces lies inside the bounds its inputs respect,
/// and is itself not inverted.
pub proof fn lemma_merge_fold_spans(s: Seq<(Seq<char>, u64, u64)>, lo: int, hi: int)
    requires
        forall|k: int|
            0 <= k < s.len() ==> (lo <= (#[trigger] s[k]).1 && s[k].1 <= s[k].2 && s[k].2 <= hi),
    ensures
        forall|k: int|
            0 <= k < merge_fold(s).len() ==> (lo <= (#[trigger] merge_fold(s)[k]).1 && merge_fold(
                s,
            )[k].1 <= merge_fold(s)[k].2 && merge_fold(s)[k].2 <= hi),
    decreases s.len(),
{
    if s.len() > 0 {
        assert(forall|k: int|
            0 <= k < s.drop_last().len() ==> (lo <= (#[trigger] s.drop_last()[k]).1
                && s.drop_last()[k].1 <= s.drop_last()[k].2 && s.drop_last()[k].2 <= hi));
        lemma_merge_fold_spans(s.drop_last(), lo, hi);
        let m = merge_fold(s);
        let prev = merge_fold(s.drop_last());
        let cur = s.last();
        assert(lo <= cur.1 && cur.1 <= cur.2 && cur.2 <= hi);
        assert forall|k: int|
            0 <= k < m.len() implies (lo <= (#[trigger] m[k]).1 && m[k].1 <= m[k].2 && m[k].2
            <= hi) by {
            if prev.len() == 0 {
                assert(m[k] == cur);
            } else {
                let tail = prev.last();
                if min(tail.2 as int, cur.2 as int) >= max(tail.1 as int, cur.1 as int) {
                    if k < m.len() - 1 {
                        assert(m[k] == prev[k]);
                    } else {
                        assert(lo <= m[k].1 && m[k].1 <= m[k].2 && m[k].2 <= hi);
                    }
                } else {
                    if k < m.len() - 1 {
                        assert(m[k] == prev[k]);
                    } else {
                        assert(m[k] == cur);
                    }
                }
            }
        };
    }
}

proof fn lemma_insert_sorted_bounds(p: (u64, u64), s: Seq<(u64, u64)>, lo: int, hi: int)
    requires
        lo <= p.0 <= p.1 <= hi,
        forall|k: int| 0 <= k < s.len() ==> (lo <= (#[trigger] s[k]).0 && s[k].0 <= s[k].1
            && s[k].1 <= hi),
    ensures
        forall|k: int|
            0 <= k < insert_sorted(p, s).len() ==> (lo <= (#[trigger] insert_sorted(p, s)[k]).0
                && insert_sorted(p, s)[k].0 <= insert_sorted(p, s)[k].1 && insert_sorted(
                p,
                s,
            )[k].1 <= hi),
    decreases s.len(),
{
    if s.len() > 0 && !pair_le(p, s[0]) {
        assert(forall|k: int|
            0 <= k < s.drop_first().len() ==> (lo <= (#[trigger] s.drop_first()[k]).0
                && s.drop_first()[k].0 <= s.drop_first()[k].1 && s.drop_first()[k].1 <= hi));
        lemma_insert_sorted_bounds(p, s.drop_first(), lo, hi);
        let r = insert_sorted(p, s);
        let rest = insert_sorted(p, s.drop_first());
        assert(forall|k: int| 1 <= k < r.len() ==> r[k] == rest[k - 1]);
    }
}

/// Sorting keeps every pair within the bounds its inputs respect.
pub proof fn lemma_sort_pairs_bounds(s: Seq<(u64, u64)>, lo: int, hi: int)
    requires
        forall|k: int| 0 <= k < s.len() ==> (lo <= (#[trigger] s[k]).0 && s[k].0 <= s[k].1
            && s[k].1 <= hi),
    ensures
        forall|k: int|
            0 <= k < sort_pairs(s).len() ==> (lo <= (#[trigger] sort_pairs(s)[k]).0 && sort_pairs(
                s,
            )[k].0 <= sort_pairs(s)[k].1 && sort_pairs(s)[k].1 <= hi),
    decreases s.len(),
{
    if s.len() > 0 {
        assert(forall|k: int|
            0 <= k < s.drop_last().len() ==> (lo <= (#[trigger] s.drop_last()[k]).0
                && s.drop_last()[k].0 <= s.drop_last()[k].1 && s.drop_last()[k].1 <= hi));
        lemma_sort_pairs_bounds(s.drop_last(), lo, hi);
        lemma_insert_sorted_bounds(s.last(), sort_pairs(s.drop_last()), lo, hi);
    }
}

/// Declares fxhash's hasher so that maps built over it can appear in
/// signatures.
#[verifier::external_type_specification]
#[verifier::external_body]
pub struct ExFxHasher(fxhash::FxHasher);

/// Declares std's default-hasher builder, the state fxhash's maps carry.
#[verifier::external_type_specification]
#[verifier::external_body]
#[verifier::reject_recursive_types(H)]
pub struct ExBuildHasherDefault<H>(std::hash::BuildHasherDefault<H>);

/// What an Fx-hashed name map holds, keyed by the name's characters.
pub uninterp spec fn fx_map_entries(m: fxhash::FxHashMap<String, Vec<String>>) -> Map<
    Seq<char>,
    Seq<Seq<char>>,
>;

/// The empty name map.
pub open spec fn no_entries() -> Map<Seq<char>, Seq<Seq<char>>> {
    Map::empty()
}

/// Relies on `HashMap::default` with the Fx hasher: a fresh map holds no
/// entries.
#[verifier::external_body]
fn fx_map_new() -> (r: fxhash::FxHashMap<String, Vec<String>>)
    ensures
        fx_map_entries(r) == no_entries(),
{
    fxhash::FxHashMap::default()
}

/// Relies on `HashMap::insert`: afterwards the map holds exactly the old
/// entries plus the given key bound to the given value.
#[verifier::external_body]
fn fx_map_insert(m: &mut fxhash::FxHashMap<String, Vec<String>>, k: String, v: Vec<String>)
    ensures
        fx_map_entries(*final(m)) == fx_map_entries(*old(m)).insert(k@, v.deep_view()),
{
    m.insert(k, v);
}

/// Dedup-insertion of a coordinate into an ascending list.
pub open spec fn bp_insert(x: u64, s: Seq<u64>) -> Seq<u64>
    decreases s.len(),
{
    if s.len() == 0 {
        seq![x]
    } else if x == s[0] {
        s
    } else if x < s[0] {
        seq![x] + s
    } else {
        seq![s[0]] + bp_insert(x, s.drop_first())
    }
}

/// The ascending breakpoint list of the first `i` spans: every start and
/// every end, each once.
pub open spec fn bps_of(tr: Seq<(u64, u64, Seq<char>)>, i: int) -> Seq<u64>
    decreases i,
{
    if i <= 0 {
        Seq::empty()
    } else {
        bp_insert(tr[i - 1].1, bp_insert(tr[i - 1].0, bps_of(tr, i - 1)))
    }
}

/// The names of the spans that cover the whole of `[p, q)`, in list
/// order.
pub open spec fn contribs(tr: Seq<(u64, u64, Seq<char>)>, p: int, q: int) -> Seq<Seq<char>>
    decreases tr.len(),
{
    if tr.len() == 0 {
        Seq::empty()
    } else {
        (if tr[0].0 <= p && q <= tr[0].1 {
            seq![tr[0].2]
        } else {
            Seq::<Seq<char>>::empty()
        }) + contribs(tr.drop_first(), p, q)
    }
}

/// The elementary intervals among the first `j` breakpoint gaps: each
/// consecutive breakpoint pair somebody covers.
pub open spec fn disc_outputs(tr: Seq<(u64, u64, Seq<char>)>, bps: Seq<u64>, j: int) -> Seq<
    (u64, u64),
>
    decreases j,
{
    if j <= 0 {
        Seq::empty()
    } else {
        disc_outputs(tr, bps, j - 1) + (if contribs(tr, bps[j - 1] as int, bps[j] as int).len()
            > 0 {
            seq![(bps[j - 1], bps[j])]
        } else {
            Seq::<(u64, u64)>::empty()
        })
    }
}

/// The ordinal-to-contributors map over the first `k` elementary
/// intervals.
pub open spec fn disc_map(tr: Seq<(u64, u64, Seq<char>)>, outs: Seq<(u64, u64)>, k: int) -> Map<
    Seq<char>,
    Seq<Seq<char>>,
>
    decreases k,
{
    if k <= 0 {
        Map::empty()
    } else {
        disc_map(tr, outs, k - 1).insert(
            dec_rep(k - 1),
            contribs(tr, outs[k - 1].0 as int, outs[k - 1].1 as int),
        )
    }
}

/// A name appears among the contributors of `[p, q)` exactly when some
/// span with that name covers the whole of `[p, q)`.
pub proof fn lemma_contribs_membership(tr: Seq<(u64, u64, Seq<char>)>, p: int, q: int, k: int)
    requires
        0 <= k < tr.len(),
        tr[k].0 <= p,
        q <= tr[k].1,
    ensures
        contribs(tr, p, q).contains(tr[k].2),
    decreases k,
{
    if k == 0 {
        assert(contribs(tr, p, q)[0] == tr[0].2);
    } else {
        assert(tr.drop_first()[k - 1] == tr[k]);
        lemma_contribs_membership(tr.drop_first(), p, q, k - 1);
        let rest = contribs(tr.drop_first(), p, q);
        let whole = contribs(tr, p, q);
        let i = choose|i: int| 0 <= i < rest.len() && rest[i] == tr[k].2;
        if tr[0].0 <= p && q <= tr[0].1 {
            assert(whole[i + 1] == rest[i]);
        } else {
            assert(whole[i] == rest[i]);
        }
    }
}

/// Every elementary interval is covered by each of its contributors; so
/// for any listed span fully containing it, that span's name is in its
/// contributor list.
pub proof fn lemma_discrete_containment(
    tr: Seq<(u64, u64, Seq<char>)>,
    bps: Seq<u64>,
    j: int,
    k: int,
)
    requires
        0 <= j <= bps.len() - 1,
        0 <= k < tr.len(),
    ensures
        forall|a: int|
            0 <= a < disc_outputs(tr, bps, j).len() && tr[k].0 <= (#[trigger] disc_outputs(
                tr,
                bps,
                j,
            )[a]).0 && disc_outputs(tr, bps, j)[a].1 <= tr[k].1 ==> contribs(
                tr,
                disc_outputs(tr, bps, j)[a].0 as int,
                disc_outputs(tr, bps, j)[a].1 as int,
            ).contains(tr[k].2),
    decreases j,
{
    if j > 0 {
        lemma_discrete_containment(tr, bps, j - 1, k);
        let pre = disc_outputs(tr, bps, j - 1);
        let cur = disc_outputs(tr, bps, j);
        assert forall|a: int|
            0 <= a < cur.len() && tr[k].0 <= (#[trigger] cur[a]).0 && cur[a].1
                <= tr[k].1 implies contribs(tr, cur[a].0 as int, cur[a].1 as int).contains(
            tr[k].2,
        ) by {
            if a < pre.len() {
                assert(cur[a] == pre[a]);
            } else {
                lemma_contribs_membership(tr, cur[a].0 as int, cur[a].1 as int, k);
            }
        };
    }
}

/// Insertion of a named span into a list sorted by `(start, end)`.
pub open spec fn insert_tr(x: (u64, u64, Seq<char>), s: Seq<(u64, u64, Seq<char>)>) -> Seq<
    (u64, u64, Seq<char>),
>
    decreases s.len(),
{
    if s.len() == 0 {
        seq![x]
    } else if pair_le((x.0, x.1), (s[0].0, s[0].1)) {
        seq![x] + s
    } else {
        seq![s[0]] + insert_tr(x, s.drop_first())
    }
}

/// Insertion sort of named spans by `(start, end)`.
pub open spec fn sort_tr(s: Seq<(u64, u64, Seq<char>)>) -> Seq<(u64, u64, Seq<char>)>
    decreases s.len(),
{
    if s.len() == 0 {
        Seq::empty()
    } else {
        insert_tr(s.last(), sort_tr(s.drop_last()))
    }
}

/// The positional models of a vector of named spans.
pub open spec fn triple_views(v: Seq<(u64, u64, String)>) -> Seq<(u64, u64, Seq<char>)> {
    v.map_values(|t: (u64, u64, String)| (t.0, t.1, t.2@))
}

/// The positional models of the carriers a discretization consumes.
pub open spec fn coord_triples<T: Coordinates + Named>(s: Seq<T>) -> Seq<(u64, u64, Seq<char>)> {
    s.map_values(|t: T| (t.spec_start()->0, t.spec_end()->0, t.spec_name()->0))
}

proof fn lemma_insert_tr_at(x: (u64, u64, Seq<char>), s: Seq<(u64, u64, Seq<char>)>, j: int)
    requires
        0 <= j <= s.len(),
        forall|k: int| 0 <= k < j ==> !pair_le((x.0, x.1), ((#[trigger] s[k]).0, s[k].1)),
        j == s.len() || pair_le((x.0, x.1), (s[j].0, s[j].1)),
    ensures
        insert_tr(x, s) == s.take(j) + seq![x] + s.skip(j),
    decreases j,
{
    if j == 0 {
        assert(s.take(0) =~= Seq::<(u64, u64, Seq<char>)>::empty());
        assert(s.skip(0) =~= s);
        assert(insert_tr(x, s) =~~= s.take(0) + seq![x] + s.skip(0));
    } else {
        assert(!pair_le((x.0, x.1), (s[0].0, s[0].1)));
        lemma_insert_tr_at(x, s.drop_first(), j - 1);
        assert(s.drop_first().take(j - 1) =~= s.take(j).drop_first());
        assert(s.drop_first().skip(j - 1) =~= s.skip(j));
        assert(insert_tr(x, s) =~~= seq![s[0]] + (s.drop_first().take(j - 1) + seq![x]
            + s.drop_first().skip(j - 1)));
        assert(seq![s[0]] + (s.take(j).drop_first() + seq![x] + s.skip(j)) =~~= s.take(j)
            + seq![x] + s.skip(j));
    }
}

/// The insertion position of a span among sorted named spans.
fn insert_pos_tr(out: &Vec<(u64, u64, String)>, p0: u64, p1: u64) -> (j: usize)
    ensures
        0 <= j <= out@.len(),
        forall|k: int|
            0 <= k < j ==> !pair_le((p0, p1), ((#[trigger] out@[k]).0, out@[k].1)),
        j < out@.len() ==> pair_le((p0, p1), (out@[j as int].0, out@[j as int].1)),
{
    let mut j: usize = 0;
    while j < out.len()
        invariant
            0 <= j <= out@.len(),
            forall|k: int|
                0 <= k < j ==> !pair_le((p0, p1), ((#[trigger] out@[k]).0, out@[k].1)),
        decreases out@.len() - j,
    {
        let cs = out[j].0;
        let ce = out[j].1;
        if p0 < cs || (p0 == cs && p1 <= ce) {
            return j;
        }
        j += 1;
    }
    j
}

/// Sorts named spans ascending by `(start, end)` with insertion sort.
fn sort_triples(input: &Vec<(u64, u64, String)>) -> (r: Vec<(u64, u64, String)>)
    ensures
        triple_views(r@) == sort_tr(triple_views(input@)),
{
    let mut out: Vec<(u64, u64, String)> = Vec::new();
    let mut i: usize = 0;
    proof {
        assert(triple_views(input@).take(0) =~= Seq::<(u64, u64, Seq<char>)>::empty());
        assert(triple_views(out@) =~= sort_tr(triple_views(input@).take(0)));
    }
    while i < input.len()
        invariant
            0 <= i <= input@.len(),
            triple_views(out@) == sort_tr(triple_views(input@).take(i as int)),
        decreases input@.len() - i,
    {
        let ghost sorted_pre = sort_tr(triple_views(input@).take(i as int));
        let p0 = input[i].0;
        let p1 = input[i].1;
        let nm = input[i].2.clone();
        let j = insert_pos_tr(&out, p0, p1);
        proof {
            assert(triple_views(out@).len() == out@.len());
            assert forall|k: int| 0 <= k < j implies !pair_le(
                (p0, p1),
                ((#[trigger] sorted_pre[k]).0, sorted_pre[k].1),
            ) by {
                assert(sorted_pre[k].0 == out@[k].0 && sorted_pre[k].1 == out@[k].1);
            };
            if j < out@.len() {
                assert(sorted_pre[j as int].0 == out@[j as int].0 && sorted_pre[j as int].1
                    == out@[j as int].1);
            }
            let x = triple_views(input@)[i as int];
            assert(x.0 == p0 && x.1 == p1 && x.2 == nm@);
            lemma_insert_tr_at(x, sorted_pre, j as int);
            assert(triple_views(input@).take(i + 1).drop_last() =~= triple_views(input@).take(
                i as int,
            ));
            assert(triple_views(input@).take(i + 1).last() == x);
        }
        out.insert(j, (p0, p1, nm));
        proof {
            let x = triple_views(input@)[i as int];
            let cur = sort_tr(triple_views(input@).take(i + 1));
            assert(cur == sorted_pre.take(j as int) + seq![x] + sorted_pre.skip(j as int));
            assert forall|k: int| 0 <= k < out@.len() implies triple_views(out@)[k] == cur[k] by {
                if k < j {
                    assert(cur[k] == sorted_pre[k]);
                } else if k == j {
                    assert(cur[k] == x);
                } else {
                    assert(cur[k] == sorted_pre[k - 1]);
                }
            };
            assert(triple_views(out@) =~~= cur);
        }
        i += 1;
    }
    proof {
        assert(triple_views(input@).take(input@.len() as int) =~= triple_views(input@));
    }
    out
}

/// Dedup-inserts a breakpoint into an ascending list.
fn bp_add(v: &mut Vec<u64>, x: u64)
    requires
        forall|a: int, b: int| 0 <= a < b < old(v)@.len() ==> old(v)@[a] < old(v)@[b],
    ensures
        final(v)@ == bp_insert(x, old(v)@),
        forall|a: int, b: int| 0 <= a < b < final(v)@.len() ==> final(v)@[a] < final(v)@[b],
{
    let mut j: usize = 0;
    let ghost s = v@;
    while j < v.len()
        invariant
            0 <= j <= v@.len(),
            v@ == s,
            s == old(v)@,
            forall|a: int, b: int| 0 <= a < b < s.len() ==> s[a] < s[b],
            forall|k: int| 0 <= k < j ==> #[trigger] s[k] < x,
        decreases v@.len() - j,
    {
        if v[j] == x {
            proof {
                lemma_bp_insert_found(x, s, j as int);
            }
            return ;
        }
        if v[j] > x {
            v.insert(j, x);
            proof {
                lemma_bp_insert_at(x, s, j as int);
                assert(v@ =~= s.take(j as int) + seq![x] + s.skip(j as int));
                assert forall|a: int, b: int| 0 <= a < b < v@.len() implies v@[a] < v@[b] by {
                    assert(forall|k: int| 0 <= k < j ==> v@[k] == s[k]);
                    assert(v@[j as int] == x);
                    assert(forall|k: int| j < k < v@.len() ==> v@[k] == s[k - 1]);
                };
            }
            return ;
        }
        j += 1;
    }
    v.push(x);
    proof {
        lemma_bp_insert_at(x, s, s.len() as int);
        assert(s.skip(s.len() as int) =~= Seq::<u64>::empty());
        assert(v@ =~= s.take(s.len() as int) + seq![x] + s.skip(s.len() as int));
        assert forall|a: int, b: int| 0 <= a < b < v@.len() implies v@[a] < v@[b] by {
            assert(forall|k: int| 0 <= k < s.len() ==> v@[k] == s[k]);
        };
    }
}

proof fn lemma_bp_insert_found(x: u64, s: Seq<u64>, j: int)
    requires
        0 <= j < s.len(),
        s[j] == x,
        forall|k: int| 0 <= k < j ==> #[trigger] s[k] < x,
    ensures
        bp_insert(x, s) == s,
    decreases j,
{
    if j == 0 {
    } else {
        assert(s[0] < x);
        assert(s.drop_first()[j - 1] == x);
        assert(forall|k: int| 0 <= k < j - 1 ==> #[trigger] s.drop_first()[k] == s[k + 1]);
        lemma_bp_insert_found(x, s.drop_first(), j - 1);
        assert(bp_insert(x, s) =~= seq![s[0]] + s.drop_first());
    }
}

proof fn lemma_bp_insert_at(x: u64, s: Seq<u64>, j: int)
    requires
        0 <= j <= s.len(),
        forall|k: int| 0 <= k < j ==> #[trigger] s[k] < x,
        j == s.len() || s[j] > x,
    ensures
        bp_insert(x, s) == s.take(j) + seq![x] + s.skip(j),
    decreases j,
{
    if j == 0 {
        assert(s.take(0) =~= Seq::<u64>::empty());
        assert(s.skip(0) =~= s);
        assert(bp_insert(x, s) =~= s.take(0) + seq![x] + s.skip(0));
    } else {
        assert(s[0] < x);
        assert(forall|k: int| 0 <= k < j - 1 ==> #[trigger] s.drop_first()[k] == s[k + 1]);
        lemma_bp_insert_at(x, s.drop_first(), j - 1);
        assert(s.drop_first().take(j - 1) =~= s.take(j).drop_first());
        assert(s.drop_first().skip(j - 1) =~= s.skip(j));
        assert(bp_insert(x, s) =~= seq![s[0]] + (s.drop_first().take(j - 1) + seq![x]
            + s.drop_first().skip(j - 1)));
        assert(seq![s[0]] + (s.take(j).drop_first() + seq![x] + s.skip(j)) =~= s.take(j) + seq![x]
            + s.skip(j));
    }
}


/// The ordinal map over the first `k` elementary intervals only reads
/// those `k` intervals.
proof fn lemma_disc_map_prefix(
    tr: Seq<(u64, u64, Seq<char>)>,
    outs1: Seq<(u64, u64)>,
    outs2: Seq<(u64, u64)>,
    k: int,
)
    requires
        0 <= k <= outs1.len(),
        k <= outs2.len(),
        forall|a: int| 0 <= a < k ==> outs1[a] == outs2[a],
    ensures
        disc_map(tr, outs1, k) == disc_map(tr, outs2, k),
    decreases k,
{
    if k > 0 {
        lemma_disc_map_prefix(tr, outs1, outs2, k - 1);
    }
}

/// Splits a collection of potentially overlapping named spans into the
/// maximal elementary sub-intervals on which the set of covering spans is
/// constant, and maps each elementary interval's fresh ordinal name to
/// the names of the spans covering it.
#[verifier::rlimit(100)]
#[verifier::spinoff_prover]
pub fn discrete_interval_map<T: Coordinates + Named>(intervals: &Vec<T>) -> (r: (
    Vec<Interval>,
    fxhash::FxHashMap<String, Vec<String>>,
))
    requires
        forall|i: int|
            0 <= i < intervals@.len() ==> ((#[trigger] intervals@[i]).spec_start() is Some
                && intervals@[i].spec_end() is Some && intervals@[i].spec_name() is Some),
    ensures
        ({
            let tr = sort_tr(coord_triples(intervals@));
            let bps = bps_of(tr, tr.len() as int);
            let outs = disc_outputs(tr, bps, bps.len() - 1);
            &&& r.0@.len() == outs.len()
            &&& (forall|k: int|
                0 <= k < outs.len() ==> {
                    let iv = #[trigger] r.0@[k];
                    &&& iv.start == Some(outs[k].0)
                    &&& iv.end == Some(outs[k].1)
                    &&& (iv.name matches Some(nm) && nm@ == dec_rep(k))
                    &&& (intervals@.len() > 0 ==> (iv.chrom is Some <==> intervals@[0].spec_chrom()
                        is Some) && (iv.chrom matches Some(c) ==> c@
                        == intervals@[0].spec_chrom()->0))
                })
            &&& fx_map_entries(r.1) == disc_map(tr, outs, outs.len() as int)
        }),
{
    let mut interval_vec: Vec<Interval> = Vec::new();
    let mut out_map = fx_map_new();
    if intervals.len() == 0 {
        proof {
            let tr = sort_tr(coord_triples(intervals@));
            assert(coord_triples(intervals@).len() == 0);
            assert(tr.len() == 0);
            assert(bps_of(tr, 0).len() == 0);
            assert(disc_outputs(tr, bps_of(tr, 0), -1).len() == 0);
        }
        return (interval_vec, out_map);
    }
    let mut triples: Vec<(u64, u64, String)> = Vec::new();
    let mut i: usize = 0;
    proof {
        assert(triple_views(triples@) =~= coord_triples(intervals@).take(0));
    }
    while i < intervals.len()
        invariant
            0 <= i <= intervals@.len(),
            forall|k: int|
                0 <= k < intervals@.len() ==> ((#[trigger] intervals@[k]).spec_start() is Some
                    && intervals@[k].spec_end() is Some && intervals@[k].spec_name() is Some),
            triple_views(triples@) == coord_triples(intervals@).take(i as int),
        decreases intervals@.len() - i,
    {
        let el = &intervals[i];
        let st = *el.start().unwrap();
        let en = *el.end().unwrap();
        let nm = el.name().unwrap().to_owned();
        let ghost before = triples@;
        triples.push((st, en, nm));
        proof {
            let whole = coord_triples(intervals@);
            assert(triple_views(before).len() == before.len());
            assert(triple_views(before) == whole.take(i as int));
            assert(before.len() == i);
            assert(triples@ == before.push((st, en, nm)));
            assert(st == intervals@[i as int].spec_start()->0);
            assert(en == intervals@[i as int].spec_end()->0);
            assert(nm@ == intervals@[i as int].spec_name()->0);
            assert(whole[i as int] == (st, en, nm@));
            assert forall|k: int| 0 <= k < i + 1 implies triple_views(triples@)[k] == whole.take(
                i + 1,
            )[k] by {
                if k < i {
                    assert(triples@[k] == before[k]);
                    assert(triple_views(before)[k] == whole.take(i as int)[k]);
                } else {
                    assert(triples@[k] == (st, en, nm));
                }
            };
            assert(triple_views(triples@) =~= whole.take(i + 1));
        }
        i += 1;
    }
    proof {
        assert(coord_triples(intervals@).take(intervals@.len() as int) =~= coord_triples(
            intervals@,
        ));
    }
    let sorted = sort_triples(&triples);
    let ghost tr = sort_tr(coord_triples(intervals@));
    proof {
        assert(triple_views(sorted@) == tr);
        assert(sorted@.len() == tr.len());
    }
    let mut bps: Vec<u64> = Vec::new();
    let mut k: usize = 0;
    proof {
        assert(bps@ =~= bps_of(tr, 0));
    }
    while k < sorted.len()
        invariant
            0 <= k <= sorted@.len(),
            triple_views(sorted@) == tr,
            sorted@.len() == tr.len(),
            bps@ == bps_of(tr, k as int),
            forall|a: int, b: int| 0 <= a < b < bps@.len() ==> bps@[a] < bps@[b],
        decreases sorted@.len() - k,
    {
        proof {
            assert(tr[k as int].0 == sorted@[k as int].0 && tr[k as int].1
                == sorted@[k as int].1);
        }
        bp_add(&mut bps, sorted[k].0);
        bp_add(&mut bps, sorted[k].1);
        k += 1;
    }
    let chrom_opt: Option<String> = match intervals[0].chrom() {
        Some(x) => Some(x.clone()),
        None => None,
    };
    let ghost bps_full = bps_of(tr, tr.len() as int);
    proof {
        assert(bps@ == bps_full);
    }
    let mut ordinal: usize = 0;
    let mut j: usize = 1;
    proof {
        assert(disc_outputs(tr, bps_full, 0) =~= Seq::<(u64, u64)>::empty());
        assert(fx_map_entries(out_map) =~= disc_map(tr, disc_outputs(tr, bps_full, 0), 0));
    }
    if bps.len() == 0 {
        proof {
            assert(disc_outputs(tr, bps_full, -1).len() == 0);
        }
        return (interval_vec, out_map);
    }
    while j < bps.len()
        invariant
            1 <= j <= bps@.len(),
            bps@.len() >= 1,
            bps@ == bps_full,
            triple_views(sorted@) == tr,
            sorted@.len() == tr.len(),
            intervals@.len() > 0,
            (chrom_opt is Some <==> intervals@[0].spec_chrom() is Some),
            (chrom_opt matches Some(c) ==> c@ == intervals@[0].spec_chrom()->0),
            ordinal as int == disc_outputs(tr, bps_full, j as int - 1).len(),
            ordinal as int <= j - 1,
            interval_vec@.len() == ordinal,
            forall|a: int|
                0 <= a < interval_vec@.len() ==> {
                    let iv = #[trigger] interval_vec@[a];
                    let outs = disc_outputs(tr, bps_full, j as int - 1);
                    &&& iv.start == Some(outs[a].0)
                    &&& iv.end == Some(outs[a].1)
                    &&& (iv.name matches Some(nm) && nm@ == dec_rep(a))
                    &&& (iv.chrom is Some <==> intervals@[0].spec_chrom() is Some)
                    &&& (iv.chrom matches Some(c) ==> c@ == intervals@[0].spec_chrom()->0)
                },
            fx_map_entries(out_map) == disc_map(
                tr,
                disc_outputs(tr, bps_full, j as int - 1),
                ordinal as int,
            ),
        decreases bps@.len() - j,
    {
        let p = bps[j - 1];
        let q = bps[j];
        let ghost pre_outs = disc_outputs(tr, bps_full, j as int - 1);
        let mut names: Vec<String> = Vec::new();
        let mut c: usize = 0;
        proof {
            assert(tr.skip(0) =~= tr);
            match contribs(tr, p as int, q as int) {
                _ => {},
            }
            assert(names.deep_view() + contribs(tr.skip(0), p as int, q as int) =~= contribs(
                tr,
                p as int,
                q as int,
            ));
        }
        while c < sorted.len()
            invariant
                0 <= c <= sorted@.len(),
                triple_views(sorted@) == tr,
                sorted@.len() == tr.len(),
                names.deep_view() + contribs(tr.skip(c as int), p as int, q as int) == contribs(
                    tr,
                    p as int,
                    q as int,
                ),
            decreases sorted@.len() - c,
        {
            proof {
                assert(tr.skip(c as int).len() > 0);
                assert(tr.skip(c as int)[0] == tr[c as int]);
                assert(tr.skip(c as int).drop_first() =~= tr.skip(c + 1));
                assert(tr[c as int].0 == sorted@[c as int].0 && tr[c as int].1
                    == sorted@[c as int].1 && tr[c as int].2 == sorted@[c as int].2@);
            }
            if sorted[c].0 <= p && q <= sorted[c].1 {
                names.push(sorted[c].2.clone());
                proof {
                    assert(names.deep_view() =~= names.deep_view().drop_last().push(
                        sorted@[c as int].2@,
                    ));
                    assert(names.deep_view() + contribs(tr.skip(c + 1), p as int, q as int)
                        =~= names.deep_view().drop_last() + (seq![tr[c as int].2] + contribs(
                        tr.skip(c + 1),
                        p as int,
                        q as int,
                    )));
                }
            }
            c += 1;
        }
        proof {
            assert(tr.skip(tr.len() as int) =~= Seq::<(u64, u64, Seq<char>)>::empty());
            assert(names.deep_view() + Seq::<Seq<char>>::empty() =~= names.deep_view());
            assert(names.deep_view() == contribs(tr, p as int, q as int));
        }
        if names.len() > 0 {
            let name = crate::text::u64_to_string(ordinal as u64);
            let fresh = Interval::from(
                match chrom_opt.as_ref() {
                    Some(x) => Some(x.clone()),
                    None => None,
                },
                Some(p),
                Some(q),
                Some(name.clone()),
            );
            interval_vec.push(fresh);
            fx_map_insert(&mut out_map, name, names);
            proof {
                let outs_now = disc_outputs(tr, bps_full, j as int);
                assert(outs_now =~= pre_outs + seq![(p, q)]);
                lemma_disc_map_prefix(tr, pre_outs, outs_now, ordinal as int);
                assert(outs_now[ordinal as int] == (p, q));
                assert(fx_map_entries(out_map) =~= disc_map(tr, outs_now, ordinal + 1));
            }
            ordinal += 1;
        } else {
            proof {
                let outs_now = disc_outputs(tr, bps_full, j as int);
                assert(outs_now =~= pre_outs);
                lemma_disc_map_prefix(tr, pre_outs, outs_now, ordinal as int);
            }
        }
        j += 1;
    }
    (interval_vec, out_map)
}

/// Membership in a breakpoint list.
pub open spec fn bp_mem(s: Seq<u64>, y: u64) -> bool {
    exists|i: int| 0 <= i < s.len() && s[i] == y
}

pub open spec fn bp_sorted(s: Seq<u64>) -> bool {
    forall|a: int, b: int| 0 <= a < b < s.len() ==> s[a] < s[b]
}

proof fn lemma_bp_insert_sorted_mem(x: u64, s: Seq<u64>)
    requires
        bp_sorted(s),
    ensures
        bp_sorted(bp_insert(x, s)),
        forall|y: u64|
            #![trigger bp_mem(bp_insert(x, s), y)]
            bp_mem(bp_insert(x, s), y) <==> (y == x || bp_mem(s, y)),
    decreases s.len(),
{
    let r = bp_insert(x, s);
    if s.len() == 0 {
        assert(r =~= seq![x]);
        assert forall|y: u64| bp_mem(r, y) <==> (y == x || bp_mem(s, y)) by {
            if y == x {
                assert(r[0] == y);
            }
        };
    } else if x == s[0] {
        assert forall|y: u64| bp_mem(r, y) <==> (y == x || bp_mem(s, y)) by {
            if y == x {
                assert(r[0] == y);
            }
        };
    } else if x < s[0] {
        assert(r =~= seq![x] + s);
        assert forall|a: int, b: int| 0 <= a < b < r.len() implies r[a] < r[b] by {
            if a == 0 {
                assert(r[b] == s[b - 1]);
                if b > 1 {
                    assert(s[0] < s[b - 1]);
                }
            } else {
                assert(r[a] == s[a - 1] && r[b] == s[b - 1]);
            }
        };
        assert forall|y: u64| bp_mem(r, y) <==> (y == x || bp_mem(s, y)) by {
            if bp_mem(r, y) {
                let i = choose|i: int| 0 <= i < r.len() && r[i] == y;
                if i > 0 {
                    assert(s[i - 1] == y);
                }
            }
            if y == x {
                assert(r[0] == y);
            }
            if bp_mem(s, y) {
                let i = choose|i: int| 0 <= i < s.len() && s[i] == y;
                assert(r[i + 1] == y);
            }
        };
    } else {
        assert(bp_sorted(s.drop_first())) by {
            assert(forall|k: int| 0 <= k < s.len() - 1 ==> s.drop_first()[k] == s[k + 1]);
        };
        lemma_bp_insert_sorted_mem(x, s.drop_first());
        let rest = bp_insert(x, s.drop_first());
        assert(r =~= seq![s[0]] + rest);
        assert forall|a: int, b: int| 0 <= a < b < r.len() implies r[a] < r[b] by {
            if a == 0 {
                assert(r[b] == rest[b - 1]);
                assert(bp_mem(rest, rest[b - 1]));
                let y = rest[b - 1];
                assert(y == x || bp_mem(s.drop_first(), y));
                if y == x {
                    assert(s[0] < x);
                } else {
                    let i = choose|i: int| 0 <= i < s.drop_first().len() && s.drop_first()[i] == y;
                    assert(s[0] < s[i + 1]);
                }
            } else {
                assert(r[a] == rest[a - 1] && r[b] == rest[b - 1]);
            }
        };
        assert forall|y: u64| bp_mem(r, y) <==> (y == x || bp_mem(s, y)) by {
            if bp_mem(r, y) {
                let i = choose|i: int| 0 <= i < r.len() && r[i] == y;
                if i == 0 {
                    assert(s[0] == y);
                } else {
                    assert(r[i] == rest[i - 1]);
                    assert(rest[i - 1] == y);
                    assert(bp_mem(rest, y));
                    if y != x {
                        assert(bp_mem(s.drop_first(), y));
                        let i2 = choose|i2: int|
                            0 <= i2 < s.drop_first().len() && s.drop_first()[i2] == y;
                        assert(s.drop_first()[i2] == s[i2 + 1]);
                        assert(s[i2 + 1] == y);
                    }
                }
            }
            if y == x {
                assert(bp_mem(rest, y));
                let i = choose|i: int| 0 <= i < rest.len() && rest[i] == y;
                assert(r[i + 1] == rest[i]);
                assert(r[i + 1] == y);
            } else if bp_mem(s, y) {
                let i = choose|i: int| 0 <= i < s.len() && s[i] == y;
                if i == 0 {
                    assert(r[0] == y);
                } else {
                    assert(s.drop_first()[i - 1] == s[i]);
                    assert(bp_mem(s.drop_first(), y));
                    assert(bp_mem(rest, y));
                    let i2 = choose|i2: int| 0 <= i2 < rest.len() && rest[i2] == y;
                    assert(r[i2 + 1] == rest[i2]);
                    assert(r[i2 + 1] == y);
                }
            }
        };
    }
}

/// The breakpoint list is sorted and holds exactly the starts and ends of
/// the first `i` spans.
proof fn lemma_bps_sorted_mem(tr: Seq<(u64, u64, Seq<char>)>, i: int)
    requires
        0 <= i <= tr.len(),
    ensures
        bp_sorted(bps_of(tr, i)),
        forall|y: u64|
            bp_mem(bps_of(tr, i), y) <==> (exists|k: int|
                0 <= k < i && ((#[trigger] tr[k]).0 == y || tr[k].1 == y)),
    decreases i,
{
    if i > 0 {
        lemma_bps_sorted_mem(tr, i - 1);
        lemma_bp_insert_sorted_mem(tr[i - 1].0, bps_of(tr, i - 1));
        lemma_bp_insert_sorted_mem(tr[i - 1].1, bp_insert(tr[i - 1].0, bps_of(tr, i - 1)));
        assert forall|y: u64|
            bp_mem(bps_of(tr, i), y) <==> (exists|k: int|
                0 <= k < i && ((#[trigger] tr[k]).0 == y || tr[k].1 == y)) by {
            if bp_mem(bps_of(tr, i), y) {
                if y == tr[i - 1].1 || y == tr[i - 1].0 {
                    assert(tr[i - 1].0 == y || tr[i - 1].1 == y);
                } else {
                    assert(bp_mem(bps_of(tr, i - 1), y));
                }
            }
            if exists|k: int| 0 <= k < i && ((#[trigger] tr[k]).0 == y || tr[k].1 == y) {
                let k = choose|k: int| 0 <= k < i && ((#[trigger] tr[k]).0 == y || tr[k].1 == y);
                if k < i - 1 {
                    assert(bp_mem(bps_of(tr, i - 1), y));
                }
            }
        };
    }
}

/// A non-empty contributor list names a span covering the window.
proof fn lemma_contribs_nonempty(tr: Seq<(u64, u64, Seq<char>)>, p: int, q: int)
    requires
        contribs(tr, p, q).len() > 0,
    ensures
        exists|k: int| 0 <= k < tr.len() && (#[trigger] tr[k]).0 <= p && q <= tr[k].1,
    decreases tr.len(),
{
    if tr.len() > 0 {
        if tr[0].0 <= p && q <= tr[0].1 {
            assert(tr[0].0 <= p && q <= tr[0].1);
        } else {
            lemma_contribs_nonempty(tr.drop_first(), p, q);
            let k = choose|k: int|
                0 <= k < tr.drop_first().len() && (#[trigger] tr.drop_first()[k]).0 <= p && q
                    <= tr.drop_first()[k].1;
            assert((#[trigger] tr[k + 1]).0 <= p && q <= tr[k + 1].1);
        }
    }
}

/// Every emitted elementary interval is a breakpoint gap with a
/// non-empty contributor list.
proof fn lemma_outs_are_gaps(tr: Seq<(u64, u64, Seq<char>)>, bps: Seq<u64>, jj: int, a: int)
    requires
        0 <= jj <= bps.len() - 1 || jj <= 0,
        0 <= a < disc_outputs(tr, bps, jj).len(),
    ensures
        exists|j: int|
            #![trigger bps[j]]
            1 <= j <= jj && disc_outputs(tr, bps, jj)[a] == (bps[j - 1], bps[j]) && contribs(
                tr,
                bps[j - 1] as int,
                bps[j] as int,
            ).len() > 0,
    decreases jj,
{
    let pre = disc_outputs(tr, bps, jj - 1);
    if a < pre.len() {
        lemma_outs_are_gaps(tr, bps, jj - 1, a);
        let j = choose|j: int|
            #![trigger bps[j]]
            1 <= j <= jj - 1 && disc_outputs(tr, bps, jj - 1)[a] == (bps[j - 1], bps[j])
                && contribs(tr, bps[j - 1] as int, bps[j] as int).len() > 0;
        assert(disc_outputs(tr, bps, jj)[a] == (bps[j - 1], bps[j]));
    } else {
        assert(jj >= 1);
        assert(disc_outputs(tr, bps, jj)[a] == (bps[jj - 1], bps[jj]));
        assert(contribs(tr, bps[jj - 1] as int, bps[jj] as int).len() > 0);
    }
}

/// A breakpoint gap with a non-empty contributor list appears among the
/// emitted elementary intervals.
proof fn lemma_disc_outputs_member(tr: Seq<(u64, u64, Seq<char>)>, bps: Seq<u64>, jj: int, j: int)
    requires
        1 <= j <= jj <= bps.len() - 1,
        contribs(tr, bps[j - 1] as int, bps[j] as int).len() > 0,
    ensures
        exists|a: int|
            0 <= a < disc_outputs(tr, bps, jj).len() && #[trigger] disc_outputs(tr, bps, jj)[a]
                == (bps[j - 1], bps[j]),
    decreases jj,
{
    let cur = disc_outputs(tr, bps, jj);
    let pre = disc_outputs(tr, bps, jj - 1);
    if j == jj {
        assert(cur[pre.len() as int] == (bps[j - 1], bps[j]));
    } else {
        lemma_disc_outputs_member(tr, bps, jj - 1, j);
        let a = choose|a: int|
            0 <= a < pre.len() && #[trigger] disc_outputs(tr, bps, jj - 1)[a] == (
                bps[j - 1],
                bps[j],
            );
        assert(cur[a] == (bps[j - 1], bps[j]));
    }
}

/// In a sorted list a covered position falls into some adjacent gap.
proof fn lemma_sorted_gap(v: Seq<u64>, i1: int, i2: int, x: int)
    requires
        bp_sorted(v),
        0 <= i1 < i2 < v.len(),
        v[i1] <= x < v[i2],
    ensures
        exists|j: int| i1 <= j < i2 && (#[trigger] v[j]) <= x < v[j + 1],
    decreases i2 - i1,
{
    if v[i2 - 1] <= x {
        assert(i1 <= (i2 - 1) < i2 && (#[trigger] v[i2 - 1]) <= x < v[(i2 - 1) + 1]);
    } else {
        assert(i1 < i2 - 1) by {
            if i1 == i2 - 1 {
                assert(v[i1] <= x);
            }
        };
        lemma_sorted_gap(v, i1, i2 - 1, x);
        let j = choose|j: int| i1 <= j < i2 - 1 && (#[trigger] v[j]) <= x < v[j + 1];
        assert(i1 <= j < i2 && (#[trigger] v[j]) <= x < v[j + 1]);
    }
}

/// Discretization coverage: the elementary intervals cover exactly the
/// genomic positions the input spans cover.
#[verifier::rlimit(100)]
#[verifier::spinoff_prover]
pub proof fn lemma_discretize_coverage(tr: Seq<(u64, u64, Seq<char>)>, x: u64)
    ensures
        ({
            let bps = bps_of(tr, tr.len() as int);
            let outs = disc_outputs(tr, bps, bps.len() - 1);
            (exists|a: int|
                0 <= a < outs.len() && (#[trigger] outs[a]).0 <= x < outs[a].1) <==> (exists|
                k: int,
            |
                0 <= k < tr.len() && (#[trigger] tr[k]).0 <= x < tr[k].1)
        }),
{
    let bps = bps_of(tr, tr.len() as int);
    let outs = disc_outputs(tr, bps, bps.len() - 1);
    lemma_bps_sorted_mem(tr, tr.len() as int);
    if exists|a: int| 0 <= a < outs.len() && (#[trigger] outs[a]).0 <= x < outs[a].1 {
        let a = choose|a: int| 0 <= a < outs.len() && (#[trigger] outs[a]).0 <= x < outs[a].1;
        lemma_outs_are_gaps(tr, bps, bps.len() - 1, a);
        let j = choose|j: int|
            #![trigger bps[j]]
            1 <= j <= bps.len() - 1 && disc_outputs(tr, bps, bps.len() - 1)[a] == (
                bps[j - 1],
                bps[j],
            ) && contribs(tr, bps[j - 1] as int, bps[j] as int).len() > 0;
        lemma_contribs_nonempty(tr, bps[j - 1] as int, bps[j] as int);
        let k = choose|k: int|
            0 <= k < tr.len() && (#[trigger] tr[k]).0 <= bps[j - 1] && bps[j] <= tr[k].1;
        assert(tr[k].0 <= x < tr[k].1);
    }
    if exists|k: int| 0 <= k < tr.len() && (#[trigger] tr[k]).0 <= x < tr[k].1 {
        let k = choose|k: int| 0 <= k < tr.len() && (#[trigger] tr[k]).0 <= x < tr[k].1;
        let lo = tr[k].0;
        let hi = tr[k].1;
        assert(bp_mem(bps, lo));
        assert(bp_mem(bps, hi));
        let i1 = choose|i: int| 0 <= i < bps.len() && bps[i] == lo;
        let i2 = choose|i: int| 0 <= i < bps.len() && bps[i] == hi;
        assert(i1 < i2) by {
            if i1 >= i2 {
                assert(bps[i2] <= bps[i1]);
            }
        };
        lemma_sorted_gap(bps, i1, i2, x as int);
        let j = choose|j: int| i1 <= j < i2 && (#[trigger] bps[j]) <= x < bps[j + 1];
        assert(lo <= bps[j]) by {
            if i1 < j {
                assert(bps[i1] < bps[j]);
            }
        };
        assert(bps[j + 1] <= hi) by {
            if j + 1 < i2 {
                assert(bps[j + 1] < bps[i2]);
            }
        };
        lemma_contribs_membership(tr, bps[j] as int, bps[j + 1] as int, k);
        lemma_disc_outputs_member(tr, bps, bps.len() - 1, j + 1);
        let a = choose|a: int|
            0 <= a < outs.len() && #[trigger] disc_outputs(tr, bps, bps.len() - 1)[a] == (
                bps[j],
                bps[j + 1],
            );
        assert(outs[a].0 <= x < outs[a].1);
    }
}

} // verus!
