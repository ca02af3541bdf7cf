use vstd::prelude::*;

use crate::model::{
    bucket_succ, bucket_total, is_start, num_starts, pct_of, results_nonneg, starts_seq,
    stats_times_distinct, strictly_desc, CheckRec, CheckResult, WebsiteStats, SUCCESS_STATUS,
};
use crate::store::results_view;
use crate::timeslot::{bucket_of, truncate_to, width_of, width_seconds, SplitBy};

verus! {

broadcast use vstd::seq_lib::group_seq_properties;

/// Times strictly increasing: oldest first, no duplicates.
pub open spec fn strictly_asc(out: Seq<WebsiteStats>) -> bool {
    forall|i: int, j: int| 0 <= i < j < out.len() ==> out[i].time < out[j].time
}

/// Whether some entry of the series starts at time `t`.
pub open spec fn contains_time(out: Seq<WebsiteStats>, t: int) -> bool {
    exists|i: int| 0 <= i < out.len() && (#[trigger] out[i]).time == t
}

/// A real bucket entry: its start has at least one contributing result
/// and its percentage is the integer floor of `successes * 100 / total`.
pub open spec fn bucket_entry_ok(rcs: Seq<CheckRec>, w: int, e: WebsiteStats) -> bool {
    match e.uptime_pct {
        Some(p) => is_start(rcs, w, e.time as int) && p as int == pct_of(
            bucket_succ(rcs, w, e.time as int),
            bucket_total(rcs, w, e.time as int),
        ),
        None => false,
    }
}

/// The aggregator's contract: entries ascending, each a real bucket with
/// its exact percentage, as many entries as there are buckets up to the
/// limit, and only the oldest buckets left out when the limit cuts.
pub open spec fn bucket_series_ok(
    rcs: Seq<CheckRec>,
    w: int,
    limit: int,
    out: Seq<WebsiteStats>,
) -> bool {
    &&& strictly_asc(out)
    &&& forall|i: int| 0 <= i < out.len() ==> bucket_entry_ok(rcs, w, #[trigger] out[i])
    &&& out.len() == vstd::math::min(limit, num_starts(rcs, w) as int)
    &&& forall|s: int| #[trigger]
        is_start(rcs, w, s) ==> contains_time(out, s) || (out.len() == limit && 0 < limit && s
            < out[0].time as int)
}

/// The `i`-th bucket boundary walking back from `base`.
pub open spec fn candidate_at(base: int, w: int, i: int) -> int {
    base - i * w
}

/// Whether `t` is one of the `n` bucket boundaries walking back from `base`.
pub open spec fn is_candidate(base: int, w: int, n: int, t: int) -> bool {
    exists|i: int| 0 <= i < n && t == #[trigger] candidate_at(base, w, i)
}

/// The entry standing at candidate time `c`: the real bucket of the
/// input when one starts at `c`, else a synthesized "no data" entry.
pub open spec fn entry_matches(data: Seq<WebsiteStats>, c: int, e: WebsiteStats) -> bool {
    &&& e.time as int == c
    &&& ((exists|k: int| 0 <= k < data.len() && (#[trigger] data[k]).time as int == c && e == data[k])
        || (e.uptime_pct is None && forall|k: int|
        0 <= k < data.len() ==> (#[trigger] data[k]).time as int != c))
}

/// The gap filler's contract.  A series already at the requested length
/// is only re-sorted descending; a shorter one becomes exactly `n`
/// entries, one per bucket boundary walking back from `now` truncated
/// to the unit, real buckets kept and the gaps synthesized as "no data".
pub open spec fn gap_filled(
    data: Seq<WebsiteStats>,
    n: int,
    w: int,
    now: int,
    out: Seq<WebsiteStats>,
) -> bool {
    let base = bucket_of(w, now);
    &&& strictly_desc(out)
    &&& (data.len() >= n ==> out.len() == data.len() && (forall|x: WebsiteStats|
        out.contains(x) <==> data.contains(x)))
    &&& (data.len() < n ==> out.len() == n && (forall|i: int|
        0 <= i < n ==> entry_matches(data, base - i * w, #[trigger] out[i])))
}

/// One displayed entry: a real bucket with its exact percentage, or a
/// synthesized candidate whose bucket holds no result at all — the
/// "no data" mark is never a placeholder for a checked bucket.
pub open spec fn display_entry_ok(
    rcs: Seq<CheckRec>,
    w: int,
    base: int,
    n: int,
    e: WebsiteStats,
) -> bool {
    match e.uptime_pct {
        Some(p) => is_start(rcs, w, e.time as int) && p as int == pct_of(
            bucket_succ(rcs, w, e.time as int),
            bucket_total(rcs, w, e.time as int),
        ),
        None => bucket_total(rcs, w, e.time as int) == 0 && is_candidate(base, w, n, e.time as int),
    }
}

/// The whole read-side pipeline: exactly `n` entries, most recent
/// first, each either a real bucket or an untouched gap; and with at
/// least `n` buckets of real data, no synthesized entry at all.
pub open spec fn display_series_ok(
    rcs: Seq<CheckRec>,
    w: int,
    n: int,
    now: int,
    out: Seq<WebsiteStats>,
) -> bool {
    let base = bucket_of(w, now);
    &&& out.len() == n
    &&& strictly_desc(out)
    &&& forall|i: int| 0 <= i < out.len() ==> display_entry_ok(rcs, w, base, n, #[trigger] out[i])
    &&& (num_starts(rcs, w) >= n ==> forall|i: int|
        0 <= i < out.len() ==> (#[trigger] out[i]).uptime_pct is Some)
}

/// A bucket has a positive result count exactly when it is a start.
pub proof fn lemma_bucket_total_vs_start(rcs: Seq<CheckRec>, w: int, s: int)
    ensures
        (bucket_total(rcs, w, s) > 0) <==> is_start(rcs, w, s),
    decreases rcs.len(),
{
    if rcs.len() == 0 {
    } else {
        let pre = rcs.drop_last();
        let last = rcs.last();
        lemma_bucket_total_vs_start(pre, w, s);
        assert(is_start(pre, w, s) ==> is_start(rcs, w, s)) by {
            if is_start(pre, w, s) {
                let k = choose|k: int|
                    0 <= k < pre.len() && bucket_of(w, (#[trigger] pre[k]).at) == s;
                assert(rcs[k] == pre[k]);
            }
        }
        if bucket_of(w, last.at) == s {
            assert(rcs[rcs.len() - 1] == last);
            assert(is_start(rcs, w, s));
        } else {
            assert(is_start(rcs, w, s) ==> is_start(pre, w, s)) by {
                if is_start(rcs, w, s) {
                    let k = choose|k: int|
                        0 <= k < rcs.len() && bucket_of(w, (#[trigger] rcs[k]).at) == s;
                    assert(k < pre.len());
                    assert(pre[k] == rcs[k]);
                }
            }
        }
    }
}

/// The percentage of a non-empty bucket lies between 0 and 100.
pub proof fn lemma_pct_bounds(succ: nat, total: nat)
    requires
        succ <= total,
        1 <= total,
    ensures
        0 <= pct_of(succ, total) <= 100,
{
    vstd::arithmetic::mul::lemma_mul_inequality(succ as int, total as int, 100);
    vstd::arithmetic::div_mod::lemma_div_is_ordered(
        (succ * 100) as int,
        (total * 100) as int,
        total as int,
    );
    vstd::arithmetic::div_mod::lemma_div_by_multiple(100, total as int);
    vstd::arithmetic::div_mod::lemma_div_pos_is_pos((succ * 100) as int, total as int);
}

/// Count one bucket of one target's results: total checks and successes.
fn count_bucket(results: &Vec<CheckResult>, format: SplitBy, s: i64) -> (c: (usize, usize))
    requires
        results_nonneg(results_view(results@)),
    ensures
        c.1 == bucket_total(results_view(results@), width_of(format), s as int),
        c.0 == bucket_succ(results_view(results@), width_of(format), s as int),
        c.0 <= c.1 <= results@.len(),
{
    let ghost rcs = results_view(results@);
    let ghost w = width_of(format);
    let mut total: usize = 0;
    let mut succ: usize = 0;
    let mut j: usize = 0;
    while j < results.len()
        invariant
            j <= results@.len(),
            rcs == results_view(results@),
            w == width_of(format),
            results_nonneg(rcs),
            total == bucket_total(rcs.take(j as int), w, s as int),
            succ == bucket_succ(rcs.take(j as int), w, s as int),
            succ <= total <= j,
        decreases results@.len() - j,
    {
        let r = &results[j];
        proof {
            assert(rcs.take(j + 1).drop_last() =~= rcs.take(j as int));
            assert(rcs.take(j + 1).last() == rcs[j as int]);
            assert(rcs[j as int].at == r.observed_at as int);
            assert(0 <= rcs[j as int].at);
        }
        if truncate_to(format, r.observed_at) == s {
            total = total + 1;
            if r.status == SUCCESS_STATUS {
                succ = succ + 1;
            }
        }
        j += 1;
    }
    proof {
        assert(rcs.take(results@.len() as int) =~= rcs);
    }
    (succ, total)
}

/// Keep a strictly ascending list of bucket starts, inserting `s` at
/// its position if it is new.
fn insert_start(starts: &mut Vec<i64>, s: i64)
    requires
        forall|i: int, j: int| 0 <= i < j < old(starts)@.len() ==> old(starts)@[i] < old(starts)@[j],
    ensures
        forall|i: int, j: int|
            0 <= i < j < final(starts)@.len() ==> final(starts)@[i] < final(starts)@[j],
        forall|t: i64| #[trigger]
            final(starts)@.contains(t) <==> (old(starts)@.contains(t) || t == s),
{
    let mut idx: usize = 0;
    while idx < starts.len() && starts[idx] < s
        invariant
            idx <= starts@.len(),
            *starts == *old(starts),
            forall|k: int| 0 <= k < idx ==> starts@[k] < s,
        decreases starts@.len() - idx,
    {
        idx += 1;
    }
    if idx < starts.len() && starts[idx] == s {
        proof {
            assert(starts@.contains(starts@[idx as int]));
        }
        return ;
    }
    let ghost pre = starts@;
    let ghost pos = idx as int;
    starts.insert(idx, s);
    proof {
        pre.insert_ensures(pos, s);
        assert forall|i: int, j: int|
            0 <= i < j < starts@.len() implies starts@[i] < starts@[j] by {
            if j < pos {
            } else if i < pos && j == pos {
            } else if i < pos && j > pos {
                assert(starts@[j] == pre[j - 1]);
                assert(pre[j - 1] >= s) by {
                    if j - 1 >= pos + 1 {
                        assert(pre[pos] < pre[j - 1]);
                    }
                    if pos < pre.len() {
                        assert(!(pre[pos] < s) && pre[pos] != s);
                    }
                }
            } else if i == pos {
                assert(starts@[j] == pre[j - 1]);
                if pos < pre.len() {
                    assert(!(pre[pos] < s) && pre[pos] != s);
                    if j - 1 > pos {
                        assert(pre[pos] < pre[j - 1]);
                    }
                }
            } else {
                assert(starts@[i] == pre[i - 1] && starts@[j] == pre[j - 1]);
            }
        }
        assert forall|t: i64| #[trigger]
            starts@.contains(t) implies (pre.contains(t) || t == s) by {
            let k = choose|k: int| 0 <= k < starts@.len() && starts@[k] == t;
            if k < pos {
                assert(pre[k] == t);
            } else if k == pos {
            } else {
                assert(pre[k - 1] == t);
            }
        }
        assert forall|t: i64| pre.contains(t) || t == s implies #[trigger] starts@.contains(t) by {
            if t == s {
                assert(starts@[pos] == s);
            } else {
                let k = choose|k: int| 0 <= k < pre.len() && pre[k] == t;
                if k < pos {
                    assert(starts@[k] == t);
                } else {
                    assert(starts@[k + 1] == t);
                }
            }
        }
    }
}

/// Group one target's results into buckets of unit `format`, percentage
/// `floor(successes * 100 / total)`, ascending by time, keeping at most
/// the most recent `limit` buckets.  Buckets with no contributing check
/// never appear here: padding them in is the gap filler's job.
pub fn aggregate_series(results: &Vec<CheckResult>, format: SplitBy, limit: usize) -> (out: Vec<
    WebsiteStats,
>)
    requires
        1 <= limit,
        results_nonneg(results_view(results@)),
    ensures
        bucket_series_ok(results_view(results@), width_of(format), limit as int, out@),
{
    let ghost rcs = results_view(results@);
    let ghost w = width_of(format);
    let mut starts: Vec<i64> = Vec::new();
    let mut i: usize = 0;
    while i < results.len()
        invariant
            i <= results@.len(),
            rcs == results_view(results@),
            w == width_of(format),
            results_nonneg(rcs),
            forall|a: int, b: int| 0 <= a < b < starts@.len() ==> starts@[a] < starts@[b],
            forall|k: int|
                0 <= k < starts@.len() ==> is_start(rcs, w, (#[trigger] starts@[k]) as int),
            forall|j: int|
                0 <= j < i ==> starts@.contains(bucket_of(w, (#[trigger] rcs[j]).at) as i64),
        decreases results@.len() - i,
    {
        let r = &results[i];
        proof {
            assert(rcs[i as int].at == r.observed_at as int);
            assert(0 <= rcs[i as int].at);
        }
        let s = truncate_to(format, r.observed_at);
        proof {
            assert(bucket_of(w, rcs[i as int].at) <= rcs[i as int].at < 0x8000000000000000);
            assert(0 <= bucket_of(w, rcs[i as int].at));
        }
        insert_start(&mut starts, s);
        proof {
            assert(starts@.contains(s));
            assert forall|k: int| 0 <= k < starts@.len() implies is_start(
                rcs,
                w,
                (#[trigger] starts@[k]) as int,
            ) by {
                assert(starts@.contains(starts@[k]));
                if starts@[k] == s {
                    assert(bucket_of(w, rcs[i as int].at) == s as int);
                    assert(is_start(rcs, w, s as int));
                }
            }
        }
        i += 1;
    }
    proof {
        assert forall|s: int| #[trigger]
            is_start(rcs, w, s) implies starts@.contains(s as i64) && starts@.map_values(
            |x: i64| x as int,
        ).contains(s) by {
            let j = choose|j: int| 0 <= j < rcs.len() && bucket_of(w, (#[trigger] rcs[j]).at) == s;
            assert(starts@.contains(bucket_of(w, rcs[j].at) as i64));
            assert(0 <= rcs[j].at);
            assert(0 <= s < 0x8000000000000000);
            assert(s as i64 as int == s);
            let k = choose|k: int| 0 <= k < starts@.len() && starts@[k] == s as i64;
            assert(starts@.map_values(|x: i64| x as int)[k] == s);
        }
        let mapped = starts@.map_values(|x: i64| x as int);
        assert(mapped.no_duplicates()) by {
            assert forall|a: int, b: int|
                0 <= a < b < mapped.len() implies mapped[a] != mapped[b] by {
                assert(starts@[a] < starts@[b]);
            }
        }
        mapped.unique_seq_to_set();
        assert(mapped.to_set() =~= starts_seq(rcs, w).to_set()) by {
            assert forall|t: int| #[trigger] mapped.to_set().contains(t) implies starts_seq(
                rcs,
                w,
            ).to_set().contains(t) by {
                let k = choose|k: int| 0 <= k < mapped.len() && mapped[k] == t;
                assert(is_start(rcs, w, starts@[k] as int));
                let j = choose|j: int|
                    0 <= j < rcs.len() && bucket_of(w, (#[trigger] rcs[j]).at) == t;
                assert(starts_seq(rcs, w)[j] == t);
                assert(starts_seq(rcs, w).contains(t));
            }
            assert forall|t: int| #[trigger]
                starts_seq(rcs, w).to_set().contains(t) implies mapped.to_set().contains(t) by {
                let j = choose|j: int| 0 <= j < starts_seq(rcs, w).len() && starts_seq(rcs, w)[j]
                    == t;
                assert(bucket_of(w, rcs[j].at) == t);
                assert(is_start(rcs, w, t));
            }
        }
        assert(starts@.len() == num_starts(rcs, w));
    }
    let idx0: usize = if starts.len() > limit {
        starts.len() - limit
    } else {
        0
    };
    let mut out: Vec<WebsiteStats> = Vec::new();
    let mut k: usize = idx0;
    while k < starts.len()
        invariant
            idx0 <= k <= starts@.len(),
            rcs == results_view(results@),
            w == width_of(format),
            results_nonneg(rcs),
            idx0 == if starts@.len() > limit {
                starts@.len() - limit
            } else {
                0
            },
            forall|a: int, b: int| 0 <= a < b < starts@.len() ==> starts@[a] < starts@[b],
            forall|m: int|
                0 <= m < starts@.len() ==> is_start(rcs, w, (#[trigger] starts@[m]) as int),
            out@.len() == k - idx0,
            forall|m: int|
                0 <= m < out@.len() ==> (#[trigger] out@[m]).time == starts@[idx0 + m],
            forall|m: int| 0 <= m < out@.len() ==> bucket_entry_ok(rcs, w, #[trigger] out@[m]),
        decreases starts@.len() - k,
    {
        let s = starts[k];
        let (succ, total) = count_bucket(results, format, s);
        proof {
            assert(is_start(rcs, w, s as int));
            lemma_bucket_total_vs_start(rcs, w, s as int);
            lemma_pct_bounds(
                bucket_succ(rcs, w, s as int),
                bucket_total(rcs, w, s as int),
            ) ;
        }
        let p128: u128 = (succ as u128) * 100 / (total as u128);
        proof {
            assert(p128 == pct_of(succ as nat, total as nat));
            assert(0 <= p128 <= 100);
        }
        let p: i16 = p128 as i16;
        out.push(WebsiteStats { time: s, uptime_pct: Some(p) });
        k += 1;
    }
    proof {
        assert(out@.len() == vstd::math::min(limit as int, num_starts(rcs, w) as int));
        assert forall|s: int| #[trigger] is_start(rcs, w, s) implies contains_time(out@, s) || (
        out@.len() == limit && 0 < limit && s < out@[0].time as int) by {
            assert(starts@.contains(s as i64));
            let m = choose|m: int| 0 <= m < starts@.len() && starts@[m] == s as i64;
            if m >= idx0 {
                assert(out@[m - idx0].time == starts@[m]);
                assert(contains_time(out@, s));
            } else {
                assert(starts@[m] < starts@[idx0 as int]);
                assert(out@[0].time == starts@[idx0 as int]);
            }
        }
    }
    out
}

/// Find the series entry that starts at time `c`, if any.
fn find_time(data: &Vec<WebsiteStats>, c: i64) -> (r: Option<WebsiteStats>)
    ensures
        match r {
            Some(d) => d.time == c && (exists|k: int|
                0 <= k < data@.len() && (#[trigger] data@[k]) == d),
            None => forall|k: int| 0 <= k < data@.len() ==> (#[trigger] data@[k]).time != c,
        },
{
    let mut k: usize = 0;
    while k < data.len()
        invariant
            k <= data@.len(),
            forall|m: int| 0 <= m < k ==> (#[trigger] data@[m]).time != c,
        decreases data@.len() - k,
    {
        let d = data[k];
        if d.time == c {
            proof {
                assert((#[trigger] data@[k as int]) == d);
            }
            return Some(d);
        }
        k += 1;
    }
    None
}

/// Insert one entry into a strictly descending series at its position.
fn insert_desc(v: &mut Vec<WebsiteStats>, e: WebsiteStats)
    requires
        strictly_desc(old(v)@),
        forall|k: int| 0 <= k < old(v)@.len() ==> (#[trigger] old(v)@[k]).time != e.time,
    ensures
        strictly_desc(final(v)@),
        final(v)@.len() == old(v)@.len() + 1,
        forall|x: WebsiteStats| #[trigger]
            final(v)@.contains(x) <==> (old(v)@.contains(x) || x == e),
{
    let mut idx: usize = 0;
    while idx < v.len() && v[idx].time > e.time
        invariant
            idx <= v@.len(),
            *v == *old(v),
            forall|k: int| 0 <= k < idx ==> (#[trigger] v@[k]).time > e.time,
        decreases v@.len() - idx,
    {
        idx += 1;
    }
    let ghost pre = v@;
    let ghost pos = idx as int;
    proof {
        if pos < pre.len() {
            assert(pre[pos].time < e.time);
        }
    }
    v.insert(idx, e);
    proof {
        pre.insert_ensures(pos, e);
        assert forall|i: int, j: int|
            0 <= i < j < v@.len() implies v@[i].time > v@[j].time by {
            if j < pos {
            } else if i < pos && j == pos {
            } else if i < pos && j > pos {
                assert(v@[j] == pre[j - 1]);
                if j - 1 > pos - 1 && j - 1 < pre.len() {
                    if j - 1 == pos {
                        assert(pre[pos].time < e.time);
                    } else {
                        assert(pre[pos].time < e.time);
                        assert(pre[j - 1].time < pre[pos].time);
                    }
                }
            } else if i == pos {
                assert(v@[j] == pre[j - 1]);
                if j - 1 == pos {
                    assert(pre[pos].time < e.time);
                } else {
                    assert(pre[pos].time < e.time);
                    assert(pre[j - 1].time < pre[pos].time);
                }
            } else {
                assert(v@[i] == pre[i - 1] && v@[j] == pre[j - 1]);
            }
        }
        assert forall|x: WebsiteStats| #[trigger]
            v@.contains(x) implies (pre.contains(x) || x == e) by {
            let k = choose|k: int| 0 <= k < v@.len() && v@[k] == x;
            if k < pos {
                assert(pre[k] == x);
            } else if k == pos {
            } else {
                assert(pre[k - 1] == x);
            }
        }
        assert forall|x: WebsiteStats| pre.contains(x) || x == e implies #[trigger]
            v@.contains(x) by {
            if x == e {
                assert(v@[pos] == e);
            } else {
                let k = choose|k: int| 0 <= k < pre.len() && pre[k] == x;
                if k < pos {
                    assert(v@[k] == x);
                } else {
                    assert(v@[k + 1] == x);
                }
            }
        }
    }
}

/// Sort a series with pairwise distinct times descending by time.
fn sort_stats_desc(data: Vec<WebsiteStats>) -> (out: Vec<WebsiteStats>)
    requires
        stats_times_distinct(data@),
    ensures
        strictly_desc(out@),
        out@.len() == data@.len(),
        forall|x: WebsiteStats| #[trigger] out@.contains(x) <==> data@.contains(x),
{
    let mut out: Vec<WebsiteStats> = Vec::new();
    let mut i: usize = 0;
    while i < data.len()
        invariant
            i <= data@.len(),
            stats_times_distinct(data@),
            strictly_desc(out@),
            out@.len() == i,
            forall|x: WebsiteStats| #[trigger]
                out@.contains(x) <==> data@.take(i as int).contains(x),
        decreases data@.len() - i,
    {
        let e = data[i];
        proof {
            assert forall|k: int| 0 <= k < out@.len() implies (#[trigger] out@[k]).time
                != e.time by {
                assert(out@.contains(out@[k]));
                assert(data@.take(i as int).contains(out@[k]));
                let m = choose|m: int| 0 <= m < i && data@.take(i as int)[m] == out@[k];
                assert(data@[m] == out@[k]);
                assert(data@[m].time != data@[i as int].time);
            }
        }
        insert_desc(&mut out, e);
        proof {
            assert(data@.take(i + 1).drop_last() =~= data@.take(i as int));
            assert(data@.take(i + 1).last() == data@[i as int]);
            assert forall|x: WebsiteStats| #[trigger]
                out@.contains(x) <==> data@.take(i + 1).contains(x) by {
                assert(data@.take(i + 1) =~= data@.take(i as int).push(data@[i as int]));
            }
        }
        i += 1;
    }
    proof {
        assert(data@.take(data@.len() as int) =~= data@);
    }
    out
}

/// Pad a bucketed series to exactly `splits` entries, most recent
/// first: walking back one bucket width at a time from `now` truncated
/// to the unit, a boundary keeps its real bucket if the input holds
/// one and is synthesized as "no data" otherwise.  A series already at
/// the requested length is only re-sorted descending.
pub fn fill_data_gaps(data: Vec<WebsiteStats>, splits: usize, format: SplitBy, now: i64) -> (out:
    Vec<WebsiteStats>)
    requires
        0 <= now,
        1 <= splits <= 1000,
        stats_times_distinct(data@),
    ensures
        gap_filled(data@, splits as int, width_of(format), now as int, out@),
{
    let ghost w = width_of(format);
    if data.len() >= splits {
        return sort_stats_desc(data);
    }
    let base = truncate_to(format, now);
    let wid = width_seconds(format);
    let mut out: Vec<WebsiteStats> = Vec::new();
    let mut i: usize = 0;
    while i < splits
        invariant
            i <= splits,
            1 <= splits <= 1000,
            w == width_of(format),
            wid == w,
            0 <= base,
            base == bucket_of(w, now as int),
            out@.len() == i,
            forall|j: int| 0 <= j < i ==> (#[trigger] out@[j]).time == base - j * w,
            forall|j: int| 0 <= j < i ==> entry_matches(data@, base - j * w, #[trigger] out@[j]),
        decreases splits - i,
    {
        proof {
            assert(0 <= (i as int) * w <= 1000 * 86400) by (nonlinear_arith)
                requires
                    0 <= i < 1000,
                    w == 3600 || w == 86400,
            ;
        }
        let c: i64 = base - (i as i64) * wid;
        match find_time(&data, c) {
            Some(d) => {
                out.push(d);
            },
            None => {
                out.push(WebsiteStats { time: c, uptime_pct: None });
            },
        }
        i += 1;
    }
    proof {
        assert forall|a: int, b: int|
            0 <= a < b < out@.len() implies out@[a].time > out@[b].time by {
            assert(out@[a].time == base - a * w);
            assert(out@[b].time == base - b * w);
            assert(a * w < b * w) by (nonlinear_arith)
                requires
                    0 <= a < b,
                    w > 0,
            ;
        }
    }
    out
}

/// A series gap-filled from no data at all is fully synthesized: it has
/// exactly `n` entries, entry `i` starting exactly `i` bucket widths
/// before `now` truncated to the unit — strictly descending, evenly
/// spaced — and every entry marked "no data".
pub proof fn lemma_empty_series_all_gaps(n: int, w: int, now: int, out: Seq<WebsiteStats>)
    requires
        1 <= n,
        gap_filled(Seq::<WebsiteStats>::empty(), n, w, now, out),
    ensures
        out.len() == n,
        forall|i: int|
            0 <= i < n ==> (#[trigger] out[i]).time as int == bucket_of(w, now) - i * w
                && out[i].uptime_pct is None,
        strictly_desc(out),
{
    let base = bucket_of(w, now);
    assert forall|i: int| 0 <= i < n implies (#[trigger] out[i]).time as int == base - i * w
        && out[i].uptime_pct is None by {
        assert(entry_matches(Seq::<WebsiteStats>::empty(), base - i * w, out[i]));
    }
}

/// The full read-side computation for one target: aggregate its results
/// into buckets, then gap-fill to exactly `limit` entries.
pub fn display_series(results: &Vec<CheckResult>, format: SplitBy, limit: usize, now: i64) -> (out:
    Vec<WebsiteStats>)
    requires
        1 <= limit <= 1000,
        0 <= now,
        results_nonneg(results_view(results@)),
    ensures
        display_series_ok(
            results_view(results@),
            width_of(format),
            limit as int,
            now as int,
            out@,
        ),
{
    let ghost rcs = results_view(results@);
    let ghost w = width_of(format);
    let ghost n = limit as int;
    let ghost base = bucket_of(w, now as int);
    let data = aggregate_series(results, format, limit);
    proof {
        assert forall|a: int, b: int|
            0 <= a < b < data@.len() implies data@[a].time != data@[b].time by {
            assert(data@[a].time < data@[b].time);
        }
    }
    let out = fill_data_gaps(data, limit, format, now);
    proof {
        if data@.len() >= n {
            assert(out@.len() == n);
            assert(num_starts(rcs, w) >= n);
            assert forall|i: int| 0 <= i < out@.len() implies display_entry_ok(
                rcs,
                w,
                base,
                n,
                #[trigger] out@[i],
            ) && out@[i].uptime_pct is Some by {
                assert(out@.contains(out@[i]));
                assert(data@.contains(out@[i]));
                let k = choose|k: int| 0 <= k < data@.len() && data@[k] == out@[i];
                assert(bucket_entry_ok(rcs, w, data@[k]));
            }
        } else {
            assert(num_starts(rcs, w) < n);
            assert forall|i: int| 0 <= i < out@.len() implies display_entry_ok(
                rcs,
                w,
                base,
                n,
                #[trigger] out@[i],
            ) by {
                let c = base - i * w;
                assert(entry_matches(data@, c, out@[i]));
                if exists|k: int|
                    0 <= k < data@.len() && (#[trigger] data@[k]).time as int == c && out@[i]
                        == data@[k] {
                    let k = choose|k: int|
                        0 <= k < data@.len() && (#[trigger] data@[k]).time as int == c && out@[i]
                            == data@[k];
                    assert(bucket_entry_ok(rcs, w, data@[k]));
                } else {
                    assert(out@[i].uptime_pct is None);
                    assert(forall|k: int|
                        0 <= k < data@.len() ==> (#[trigger] data@[k]).time as int != c);
                    if is_start(rcs, w, c) {
                        assert(contains_time(data@, c) || (data@.len() == n && 0 < n && c
                            < data@[0].time as int));
                        assert(contains_time(data@, c));
                        let k = choose|k: int|
                            0 <= k < data@.len() && (#[trigger] data@[k]).time == c;
                        assert(false);
                    }
                    lemma_bucket_total_vs_start(rcs, w, c);
                    assert(bucket_total(rcs, w, c) == 0);
                    assert(is_candidate(base, w, n, c)) by {
                        assert(0 <= i < n && c == candidate_at(base, w, i));
                    }
                }
            }
        }
    }
    out
}

} // verus!
