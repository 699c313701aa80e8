//! Sorting a list of ranges and joining those that touch.

use crate::index_range::IndexRange;
use vstd::prelude::*;

verus! {

/// `a` comes no later than `b` in the order by `(lower, upper)`.
pub open spec fn key_le(a: IndexRange, b: IndexRange) -> bool {
    a.lower() < b.lower() || (a.lower() == b.lower() && a.upper() <= b.upper())
}

/// The ranges stand in the order by `(lower, upper)`.
pub open spec fn sorted(s: Seq<IndexRange>) -> bool {
    forall|i: int, j: int| 0 <= i <= j < s.len() ==> key_le(#[trigger] s[i], #[trigger] s[j])
}

/// Every range has its bounds in order.
pub open spec fn all_wf(s: Seq<IndexRange>) -> bool {
    forall|i: int| 0 <= i < s.len() ==> (#[trigger] s[i]).wf()
}

/// Each range ends at least two below the start of every later one: the
/// ranges are in increasing order, pairwise disjoint, and no two of them are
/// adjacent.
pub open spec fn separated(s: Seq<IndexRange>) -> bool {
    forall|i: int, j: int|
        0 <= i < j < s.len() ==> (#[trigger] s[i]).upper() + 1 < (#[trigger] s[j]).lower()
}

/// The range `x` lies inside the range `r`.
pub open spec fn within(x: IndexRange, r: IndexRange) -> bool {
    r.lower() <= x.lower() && x.upper() <= r.upper()
}

/// The range `x` lies inside one of the ranges `rs`.
pub open spec fn placed(x: IndexRange, rs: Seq<IndexRange>) -> bool {
    exists|k: int| 0 <= k < rs.len() && within(x, #[trigger] rs[k])
}

/// One of the first `n` ranges of `raw` holds the index `z` and lies inside
/// `r`.
pub open spec fn reached(raw: Seq<IndexRange>, n: int, r: IndexRange, z: u64) -> bool {
    exists|j: int| 0 <= j < n && (#[trigger] raw[j]).holds(z) && within(raw[j], r)
}

/// Those of the first `n` ranges of `raw` that lie inside `r` are all tagged
/// as contained.
pub open spec fn all_contained_within(raw: Seq<IndexRange>, n: int, r: IndexRange) -> bool {
    forall|j: int| 0 <= j < n && within(#[trigger] raw[j], r) ==> raw[j].contained()
}

/// One of the ranges `rs` holds the index `z`.
pub open spec fn covers(rs: Seq<IndexRange>, z: u64) -> bool {
    exists|k: int| 0 <= k < rs.len() && (#[trigger] rs[k]).holds(z)
}

/// `result` is `raw` with touching ranges joined: its ranges are separated,
/// each range of `raw` lies inside one of them, each index of one of them is
/// held by a range of `raw` inside it, and one of them is tagged as contained
/// exactly if every range of `raw` inside it is.
pub open spec fn merges(raw: Seq<IndexRange>, result: Seq<IndexRange>) -> bool {
    &&& all_wf(result)
    &&& separated(result)
    &&& forall|j: int| 0 <= j < raw.len() ==> placed(#[trigger] raw[j], result)
    &&& forall|k: int, z: u64|
        0 <= k < result.len() && #[trigger] result[k].holds(z) ==> reached(
            raw,
            raw.len() as int,
            result[k],
            z,
        )
    &&& forall|k: int|
        0 <= k < result.len() ==> ((#[trigger] result[k]).contained() <==> all_contained_within(
            raw,
            raw.len() as int,
            result[k],
        ))
}

/// Merged ranges are sorted and disjoint, and no two of them are adjacent:
/// each ends at least two below the start of the next.
pub proof fn lemma_merged_are_apart(raw: Seq<IndexRange>, result: Seq<IndexRange>, i: int)
    requires
        merges(raw, result),
        0 <= i < result.len() - 1,
    ensures
        result[i].upper() + 1 < result[i + 1].lower(),
{
}

/// A range put at the end of a list adds what it holds to what the list
/// holds.
pub proof fn lemma_covers_push(ranges: Seq<IndexRange>, range: IndexRange, z: u64)
    ensures
        covers(ranges, z) ==> covers(ranges.push(range), z),
        range.holds(z) ==> covers(ranges.push(range), z),
{
    let after = ranges.push(range);
    if covers(ranges, z) {
        let k = choose|k: int| 0 <= k < ranges.len() && (#[trigger] ranges[k]).holds(z);
        assert(after[k].holds(z));
    }
    if range.holds(z) {
        assert(after[ranges.len() as int].holds(z));
    }
}

/// What the raw ranges hold, the merged ranges hold.
pub proof fn lemma_merged_cover(raw: Seq<IndexRange>, result: Seq<IndexRange>, z: u64)
    requires
        merges(raw, result),
        covers(raw, z),
    ensures
        covers(result, z),
{
    let j = choose|j: int| 0 <= j < raw.len() && (#[trigger] raw[j]).holds(z);
    assert(placed(raw[j], result));
    let k = choose|k: int| 0 <= k < result.len() && within(raw[j], #[trigger] result[k]);
    assert(result[k].holds(z));
}

/// Only one list merges a given list of well-formed ranges.
pub proof fn lemma_merges_is_unique(raw: Seq<IndexRange>, a: Seq<IndexRange>, b: Seq<IndexRange>)
    requires
        all_wf(raw),
        merges(raw, a),
        merges(raw, b),
    ensures
        a == b,
{
    lemma_same_length(raw, a, b);
    lemma_same_length(raw, b, a);
    assert forall|k: int| 0 <= k < a.len() implies a[k] == b[k] by {
        lemma_counts_up(raw, a, b, k + 1);
        let m = choose|m: int| k <= m < b.len() && b[m] == a[k];
        lemma_counts_up(raw, b, a, m + 1);
        let q = choose|q: int| m <= q < a.len() && a[q] == b[m];
        assert(a[q].wf() && a[k].wf());
        if q > k {
            assert(a[k].upper() + 1 < a[q].lower());
        }
    }
    assert(a =~= b);
}

/// A range of one merged list is a range of every other merged list of the
/// same ranges.
proof fn lemma_twin(raw: Seq<IndexRange>, a: Seq<IndexRange>, b: Seq<IndexRange>, k: int)
    requires
        all_wf(raw),
        merges(raw, a),
        merges(raw, b),
        0 <= k < a.len(),
    ensures
        exists|m: int| 0 <= m < b.len() && b[m] == a[k],
{
    let r = a[k];
    assert(r.wf());
    assert(r.holds(r.lower()));
    assert(reached(raw, raw.len() as int, r, r.lower()));
    let j = choose|j: int|
        0 <= j < raw.len() && (#[trigger] raw[j]).holds(r.lower()) && within(raw[j], r);
    assert(placed(raw[j], b));
    let m = choose|m: int| 0 <= m < b.len() && within(raw[j], #[trigger] b[m]);
    let t = b[m];
    assert(t.wf());
    lemma_no_wider(raw, a, b, k, m);
    lemma_no_wider(raw, b, a, m, k);
    assert(t.lower() == r.lower() && t.upper() == r.upper());
    if r.contained() {
        assert(all_contained_within(raw, raw.len() as int, r));
        assert forall|i: int| 0 <= i < raw.len() && within(#[trigger] raw[i], t) implies raw[i]
            .contained() by {
            assert(within(raw[i], r));
        }
    }
    if t.contained() {
        assert(all_contained_within(raw, raw.len() as int, t));
        assert forall|i: int| 0 <= i < raw.len() && within(#[trigger] raw[i], r) implies raw[i]
            .contained() by {
            assert(within(raw[i], t));
        }
    }
    r.lemma_parts_decide(t);
}

/// Two merged ranges of the same raw ranges that share an index: the one
/// does not reach beyond the other.
proof fn lemma_no_wider(
    raw: Seq<IndexRange>,
    a: Seq<IndexRange>,
    b: Seq<IndexRange>,
    k: int,
    m: int,
)
    requires
        all_wf(raw),
        merges(raw, a),
        merges(raw, b),
        0 <= k < a.len(),
        0 <= m < b.len(),
        exists|z: u64| a[k].holds(z) && b[m].holds(z),
    ensures
        a[k].lower() <= b[m].lower(),
        b[m].upper() <= a[k].upper(),
{
    let r = a[k];
    let t = b[m];
    let z = choose|z: u64| a[k].holds(z) && b[m].holds(z);
    if t.upper() > r.upper() {
        let beyond = (r.upper() + 1) as u64;
        assert(t.holds(beyond));
        lemma_lies_in_one(raw, a, b, m, beyond, k);
    }
    if t.lower() < r.lower() {
        let before = (r.lower() - 1) as u64;
        assert(t.holds(before));
        lemma_lies_in_one(raw, a, b, m, before, k);
    }
}

/// An index of a merged range lies in a range of every other merged list of
/// the same ranges, and not one place beyond the end of a range of it.
proof fn lemma_lies_in_one(
    raw: Seq<IndexRange>,
    a: Seq<IndexRange>,
    b: Seq<IndexRange>,
    m: int,
    z: u64,
    k: int,
)
    requires
        all_wf(raw),
        merges(raw, a),
        merges(raw, b),
        0 <= m < b.len(),
        0 <= k < a.len(),
        b[m].holds(z),
    ensures
        z != a[k].upper() + 1,
        z != a[k].lower() - 1,
{
    assert(reached(raw, raw.len() as int, b[m], z));
    let j = choose|j: int|
        0 <= j < raw.len() && (#[trigger] raw[j]).holds(z) && within(raw[j], b[m]);
    assert(placed(raw[j], a));
    let n = choose|n: int| 0 <= n < a.len() && within(raw[j], #[trigger] a[n]);
    assert(a[n].holds(z));
    assert(a[n].wf() && a[k].wf());
    if n < k {
        assert(a[n].upper() + 1 < a[k].lower());
    } else if k < n {
        assert(a[k].upper() + 1 < a[n].lower());
    }
}

/// A merged list is no longer than another merged list of the same ranges.
proof fn lemma_same_length(raw: Seq<IndexRange>, a: Seq<IndexRange>, b: Seq<IndexRange>)
    requires
        all_wf(raw),
        merges(raw, a),
        merges(raw, b),
    ensures
        a.len() <= b.len(),
{
    lemma_counts_up(raw, a, b, a.len() as int);
}

/// The first `n` ranges of a merged list have their twins among the first
/// places of another, at places no less than their own.
proof fn lemma_counts_up(raw: Seq<IndexRange>, a: Seq<IndexRange>, b: Seq<IndexRange>, n: int)
    requires
        all_wf(raw),
        merges(raw, a),
        merges(raw, b),
        0 <= n <= a.len(),
    ensures
        n <= b.len(),
        n > 0 ==> exists|m: int| n - 1 <= m < b.len() && b[m] == a[n - 1],
    decreases n,
{
    if n > 0 {
        lemma_counts_up(raw, a, b, n - 1);
        lemma_twin(raw, a, b, n - 1);
        let m = choose|m: int| 0 <= m < b.len() && b[m] == a[n - 1];
        if n > 1 {
            let p = choose|p: int| n - 2 <= p < b.len() && b[p] == a[n - 2];
            assert(a[n - 2].upper() + 1 < a[n - 1].lower());
            assert(a[n - 1].wf() && a[n - 2].wf());
            if m <= p {
                if m < p {
                    assert(b[m].upper() + 1 < b[p].lower());
                }
            }
            assert(m > p);
        }
    }
}

/// Sorts `ranges` by `(lower, upper)` with the standard library's
/// `sort_by_key`. Trusted: the result holds the same ranges, each as often as
/// before, in ascending order of that key.
#[verifier::external_body]
fn sort_ranges(ranges: &mut Vec<IndexRange>)
    ensures
        final(ranges)@.to_multiset() == old(ranges)@.to_multiset(),
        sorted(final(ranges)@),
{
    ranges.sort_by_key(|r| (r.lower(), r.upper()));
}

/// Sorts the ranges by `(lower, upper)` and joins those that overlap or are
/// adjacent. A joined range is tagged as contained only if all its parts
/// were.
pub fn sort_and_merge(ranges: Vec<IndexRange>) -> (results: Vec<IndexRange>)
    requires
        all_wf(ranges@),
    ensures
        merges(ranges@, results@),
{
    let mut ranges = ranges;
    let ghost raw = ranges@;
    sort_ranges(&mut ranges);
    proof {
        lemma_same_members(raw, ranges@);
        assert forall|i: int| 0 <= i < ranges@.len() implies (#[trigger] ranges@[i]).wf() by {
            assert(ranges@.contains(ranges@[i]));
            let j = choose|j: int| 0 <= j < raw.len() && raw[j] == ranges@[i];
            assert(raw[j].wf());
        }
    }
    let results = merge_sorted(&ranges);
    proof {
        lemma_merges_rearranged(ranges@, raw, results@);
    }
    results
}

/// Lists that hold the same ranges equally often hold the same ranges.
pub proof fn lemma_same_members(a: Seq<IndexRange>, b: Seq<IndexRange>)
    requires
        a.to_multiset() == b.to_multiset(),
    ensures
        forall|x: IndexRange| a.contains(x) <==> b.contains(x),
{
    a.to_multiset_ensures();
    b.to_multiset_ensures();
    assert forall|x: IndexRange| a.contains(x) <==> b.contains(x) by {
        assert(a.contains(x) <==> a.to_multiset().count(x) > 0);
        assert(b.contains(x) <==> b.to_multiset().count(x) > 0);
    }
}

/// What merges one list merges every rearrangement of it.
pub proof fn lemma_merges_rearranged(
    a: Seq<IndexRange>,
    b: Seq<IndexRange>,
    result: Seq<IndexRange>,
)
    requires
        a.to_multiset() == b.to_multiset(),
        merges(a, result),
    ensures
        merges(b, result),
{
    lemma_same_members(a, b);
    assert forall|j: int| 0 <= j < b.len() implies placed(#[trigger] b[j], result) by {
        assert(b.contains(b[j]));
        let i = choose|i: int| 0 <= i < a.len() && a[i] == b[j];
        assert(placed(a[i], result));
    }
    assert forall|k: int, z: u64|
        0 <= k < result.len() && #[trigger] result[k].holds(z) implies reached(
        b,
        b.len() as int,
        result[k],
        z,
    ) by {
        let i = choose|i: int|
            0 <= i < a.len() && (#[trigger] a[i]).holds(z) && within(a[i], result[k]);
        assert(a.contains(a[i]));
        let j = choose|j: int| 0 <= j < b.len() && b[j] == a[i];
        assert(b[j].holds(z) && within(b[j], result[k]));
    }
    assert forall|k: int| 0 <= k < result.len() implies ((#[trigger] result[k]).contained()
        <==> all_contained_within(b, b.len() as int, result[k])) by {
        if all_contained_within(a, a.len() as int, result[k]) {
            assert forall|j: int| 0 <= j < b.len() && within(
                #[trigger] b[j],
                result[k],
            ) implies b[j].contained() by {
                assert(b.contains(b[j]));
                let i = choose|i: int| 0 <= i < a.len() && a[i] == b[j];
                assert(within(a[i], result[k]));
            }
        }
        if all_contained_within(b, b.len() as int, result[k]) {
            assert forall|i: int| 0 <= i < a.len() && within(
                #[trigger] a[i],
                result[k],
            ) implies a[i].contained() by {
                assert(a.contains(a[i]));
                let j = choose|j: int| 0 <= j < b.len() && b[j] == a[i];
                assert(within(b[j], result[k]));
            }
        }
    }
}

/// What holds after the first `i` ranges of the sorted list `s` have been
/// taken in: `results` are the joined ranges that are finished, `cur` is the
/// one that may still grow.
pub open spec fn taken_in(
    s: Seq<IndexRange>,
    i: int,
    results: Seq<IndexRange>,
    cur: IndexRange,
) -> bool {
    &&& 1 <= i <= s.len()
    &&& all_wf(s)
    &&& in_order(s, i, results, cur)
    &&& forall|j: int| 0 <= j < i ==> within(#[trigger] s[j], cur) || placed(s[j], results)
    &&& forall|k: int, z: u64|
        0 <= k < results.len() && #[trigger] results[k].holds(z) ==> reached(s, i, results[k], z)
    &&& forall|z: u64| #[trigger] cur.holds(z) ==> reached(s, i, cur, z)
    &&& forall|k: int|
        0 <= k < results.len() ==> ((#[trigger] results[k]).contained() <==> all_contained_within(
            s,
            i,
            results[k],
        ))
    &&& cur.contained() <==> all_contained_within(s, i, cur)
}

/// The finished ranges are separated, `cur` starts beyond them, and no range
/// of `s` from place `i` on starts before `cur`.
pub open spec fn in_order(
    s: Seq<IndexRange>,
    i: int,
    results: Seq<IndexRange>,
    cur: IndexRange,
) -> bool {
    &&& all_wf(results)
    &&& separated(results)
    &&& cur.wf()
    &&& results.len() > 0 ==> results.last().upper() + 1 < cur.lower()
    &&& forall|j: int| i <= j < s.len() ==> cur.lower() <= (#[trigger] s[j]).lower()
}

/// Joins the ranges of a sorted list that overlap or are adjacent. A joined
/// range is tagged as contained only if all its parts were.
pub fn merge_sorted(ranges: &Vec<IndexRange>) -> (results: Vec<IndexRange>)
    requires
        sorted(ranges@),
        all_wf(ranges@),
    ensures
        merges(ranges@, results@),
{
    let mut results: Vec<IndexRange> = Vec::new();
    let n = ranges.len();
    if n == 0 {
        return results;
    }
    let mut cur: IndexRange = ranges[0];
    let mut i: usize = 1;
    proof {
        lemma_take_first(ranges@);
    }
    while i < n
        invariant
            n == ranges.len(),
            sorted(ranges@),
            taken_in(ranges@, i as int, results@, cur),
        decreases n - i,
    {
        let next: IndexRange = ranges[i];
        assert(cur.lower() <= next.lower() && next.wf());
        if next.lower() <= cur.upper() || next.lower() - cur.upper() == 1 {
            let max: u64 = if cur.upper() >= next.upper() {
                cur.upper()
            } else {
                next.upper()
            };
            let joined = IndexRange::new(cur.lower(), max, cur.contained() && next.contained());
            proof {
                lemma_take_joined(ranges@, i as int, results@, cur, joined);
            }
            cur = joined;
        } else {
            proof {
                lemma_sorted_starts_first(ranges@, i as int);
                lemma_take_apart(ranges@, i as int, results@, cur);
            }
            results.push(cur);
            cur = next;
        }
        i = i + 1;
    }
    proof {
        lemma_take_last(ranges@, results@, cur);
    }
    results.push(cur);
    results
}

/// No range of `s` after place `i` starts before the range at place `i`.
pub open spec fn starts_first(s: Seq<IndexRange>, i: int) -> bool {
    forall|j: int| i < j < s.len() ==> s[i].lower() <= (#[trigger] s[j]).lower()
}

/// In a sorted list every range starts no later than those behind it.
proof fn lemma_sorted_starts_first(s: Seq<IndexRange>, i: int)
    requires
        sorted(s),
        0 <= i < s.len(),
    ensures
        starts_first(s, i),
{
    assert forall|j: int| i < j < s.len() implies s[i].lower() <= (#[trigger] s[j]).lower() by {
        assert(key_le(s[i], s[j]));
    }
}

/// Before anything is joined, the first range alone is taken in.
proof fn lemma_take_first(s: Seq<IndexRange>)
    requires
        s.len() > 0,
        sorted(s),
        all_wf(s),
    ensures
        taken_in(s, 1, Seq::empty(), s[0]),
{
    let cur = s[0];
    assert forall|j: int| 1 <= j < s.len() implies cur.lower() <= (#[trigger] s[j]).lower() by {
        assert(key_le(s[0], s[j]));
    }
    assert forall|z: u64| #[trigger] cur.holds(z) implies reached(s, 1, cur, z) by {
        assert(s[0].holds(z) && within(s[0], cur));
    }
    assert(within(s[0], cur));
}

/// Taking in a range that touches `cur` widens `cur`.
proof fn lemma_take_joined(
    s: Seq<IndexRange>,
    i: int,
    results: Seq<IndexRange>,
    cur: IndexRange,
    joined: IndexRange,
)
    requires
        taken_in(s, i, results, cur),
        i < s.len(),
        s[i].lower() <= cur.upper() + 1,
        joined.lower() == cur.lower(),
        joined.upper() == if cur.upper() >= s[i].upper() {
            cur.upper()
        } else {
            s[i].upper()
        },
        joined.contained() == (cur.contained() && s[i].contained()),
    ensures
        taken_in(s, i + 1, results, joined),
{
    let next = s[i];
    assert(next.wf());
    assert(cur.lower() <= next.lower());
    assert(within(next, joined));
    assert(in_order(s, i + 1, results, joined));
    assert forall|j: int| 0 <= j < i + 1 implies within(#[trigger] s[j], joined) || placed(
        s[j],
        results,
    ) by {
        if j < i && within(s[j], cur) {
            assert(within(s[j], joined));
        }
    }
    assert forall|z: u64| #[trigger] joined.holds(z) implies reached(s, i + 1, joined, z) by {
        if cur.holds(z) {
            let j = choose|j: int| 0 <= j < i && (#[trigger] s[j]).holds(z) && within(s[j], cur);
            assert(s[j].holds(z) && within(s[j], joined));
        } else {
            assert(s[i].holds(z) && within(s[i], joined));
        }
    }
    assert forall|k: int, z: u64|
        0 <= k < results.len() && #[trigger] results[k].holds(z) implies reached(
        s,
        i + 1,
        results[k],
        z,
    ) by {
        let j = choose|j: int|
            0 <= j < i && (#[trigger] s[j]).holds(z) && within(s[j], results[k]);
        assert(s[j].holds(z) && within(s[j], results[k]));
    }
    lemma_later_is_outside(results, cur.lower(), next);
    assert forall|k: int| 0 <= k < results.len() implies ((#[trigger] results[k]).contained()
        <==> all_contained_within(s, i + 1, results[k])) by {
        assert(!within(next, results[k]));
        assert(all_contained_within(s, i, results[k]) <==> all_contained_within(
            s,
            i + 1,
            results[k],
        ));
    }
    if joined.contained() {
        assert forall|j: int| 0 <= j < i + 1 && within(#[trigger] s[j], joined) implies s[j]
            .contained() by {
            if j < i {
                if placed(s[j], results) {
                    lemma_placed_is_before(results, cur.lower(), s[j]);
                }
                assert(within(s[j], cur));
            }
        }
    }
    if all_contained_within(s, i + 1, joined) {
        assert(within(s[i], joined));
        assert forall|j: int| 0 <= j < i && within(#[trigger] s[j], cur) implies s[j]
            .contained() by {
            assert(within(s[j], joined));
        }
    }
}

/// Taking in a range that starts beyond `cur` finishes `cur`.
proof fn lemma_take_apart(s: Seq<IndexRange>, i: int, results: Seq<IndexRange>, cur: IndexRange)
    requires
        taken_in(s, i, results, cur),
        starts_first(s, i),
        i < s.len(),
        s[i].lower() > cur.upper() + 1,
    ensures
        taken_in(s, i + 1, results.push(cur), s[i]),
{
    let next = s[i];
    let after = results.push(cur);
    assert(next.wf());
    lemma_push_separated(results, cur);
    assert(in_order(s, i + 1, after, next));
    assert forall|j: int| 0 <= j < i + 1 implies within(#[trigger] s[j], next) || placed(
        s[j],
        after,
    ) by {
        if j < i {
            if within(s[j], cur) {
                assert(within(s[j], after[results.len() as int]));
            } else {
                let k = choose|k: int|
                    0 <= k < results.len() && within(s[j], #[trigger] results[k]);
                assert(within(s[j], after[k]));
            }
        }
    }
    assert forall|k: int, z: u64|
        0 <= k < after.len() && #[trigger] after[k].holds(z) implies reached(
        s,
        i + 1,
        after[k],
        z,
    ) by {
        if k < results.len() {
            assert(results[k].holds(z));
            let j = choose|j: int|
                0 <= j < i && (#[trigger] s[j]).holds(z) && within(s[j], results[k]);
            assert(s[j].holds(z) && within(s[j], after[k]));
        } else {
            assert(cur.holds(z));
            let j = choose|j: int| 0 <= j < i && (#[trigger] s[j]).holds(z) && within(s[j], cur);
            assert(s[j].holds(z) && within(s[j], after[k]));
        }
    }
    assert forall|z: u64| #[trigger] next.holds(z) implies reached(s, i + 1, next, z) by {
        assert(s[i].holds(z) && within(s[i], next));
    }
    lemma_later_is_outside(after, next.lower(), next);
    assert forall|k: int| 0 <= k < after.len() implies ((#[trigger] after[k]).contained()
        <==> all_contained_within(s, i + 1, after[k])) by {
        assert(!within(next, after[k]));
        assert(all_contained_within(s, i, after[k]) <==> all_contained_within(s, i + 1, after[k]));
        if k < results.len() {
            assert(after[k] == results[k]);
        }
    }
    if next.contained() {
        assert forall|j: int| 0 <= j < i + 1 && within(#[trigger] s[j], next) implies s[j]
            .contained() by {
            if j < i {
                assert(placed(s[j], after));
                lemma_placed_is_before(after, next.lower(), s[j]);
            }
        }
    }
    if all_contained_within(s, i + 1, next) {
        assert(within(s[i], next));
    }
}

/// When every range is taken in, finishing `cur` gives the merged list.
proof fn lemma_take_last(s: Seq<IndexRange>, results: Seq<IndexRange>, cur: IndexRange)
    requires
        taken_in(s, s.len() as int, results, cur),
    ensures
        merges(s, results.push(cur)),
{
    let after = results.push(cur);
    lemma_push_separated(results, cur);
    assert forall|j: int| 0 <= j < s.len() implies placed(#[trigger] s[j], after) by {
        if within(s[j], cur) {
            assert(within(s[j], after[results.len() as int]));
        } else {
            let k = choose|k: int| 0 <= k < results.len() && within(s[j], #[trigger] results[k]);
            assert(within(s[j], after[k]));
        }
    }
    assert forall|k: int, z: u64|
        0 <= k < after.len() && #[trigger] after[k].holds(z) implies reached(
        s,
        s.len() as int,
        after[k],
        z,
    ) by {
        if k < results.len() {
            assert(results[k].holds(z));
        } else {
            assert(cur.holds(z));
        }
    }
    assert forall|k: int| 0 <= k < after.len() implies ((#[trigger] after[k]).contained()
        <==> all_contained_within(s, s.len() as int, after[k])) by {
        if k < results.len() {
            assert(after[k] == results[k]);
        }
    }
}

/// A well-formed range that starts two or more beyond the last of a
/// separated list may be put at its end.
proof fn lemma_push_separated(rs: Seq<IndexRange>, x: IndexRange)
    requires
        separated(rs),
        all_wf(rs),
        x.wf(),
        rs.len() > 0 ==> rs.last().upper() + 1 < x.lower(),
    ensures
        separated(rs.push(x)),
        all_wf(rs.push(x)),
{
    let after = rs.push(x);
    assert forall|i: int, j: int| 0 <= i < j < after.len() implies (#[trigger] after[i]).upper()
        + 1 < (#[trigger] after[j]).lower() by {
        if j < rs.len() {
            assert(rs[i].upper() + 1 < rs[j].lower());
        } else if i < rs.len() - 1 {
            assert(rs[i].upper() + 1 < rs.last().lower());
            assert(rs.last().wf());
        }
    }
}

/// A well-formed range that starts at or after `start` lies inside none of
/// the ranges that end below `start`.
proof fn lemma_later_is_outside(rs: Seq<IndexRange>, start: u64, x: IndexRange)
    requires
        separated(rs),
        all_wf(rs),
        rs.len() > 0 ==> rs.last().upper() < start,
        x.wf(),
        start <= x.lower(),
    ensures
        forall|k: int| 0 <= k < rs.len() ==> !within(x, #[trigger] rs[k]),
{
    assert forall|k: int| 0 <= k < rs.len() implies !within(x, #[trigger] rs[k]) by {
        if k < rs.len() - 1 {
            assert(rs[k].upper() + 1 < rs.last().lower());
            assert(rs.last().wf());
        }
    }
}

/// A well-formed range inside one of the ranges that end below `start` ends
/// below `start`.
proof fn lemma_placed_is_before(rs: Seq<IndexRange>, start: u64, x: IndexRange)
    requires
        separated(rs),
        all_wf(rs),
        rs.len() > 0 ==> rs.last().upper() < start,
        x.wf(),
        placed(x, rs),
    ensures
        x.upper() < start,
{
    let k = choose|k: int| 0 <= k < rs.len() && within(x, #[trigger] rs[k]);
    if k < rs.len() - 1 {
        assert(rs[k].upper() + 1 < rs.last().lower());
        assert(rs.last().wf());
    }
}

} // verus!
