use vstd::prelude::*;

use crate::model::{
    has_alias, results_of, CheckRec, CheckResult, Incident, WebsiteStats, SUCCESS_STATUS,
};
use crate::series::{display_series, display_series_ok};
use crate::store::{results_view, Store};
use crate::timeslot::SplitBy;

verus! {

broadcast use vstd::seq_lib::group_seq_properties;

/// Entries of an hourly series handed to the presentation layer.
pub const HOURLY_SPLITS: usize = 24;

/// Entries of a daily series handed to the presentation layer.
pub const DAILY_SPLITS: usize = 30;

/// One target with its hourly uptime series, as the overview shows it.
pub struct WebsiteInfo {
    pub url: String,
    pub alias: String,
    pub data: Vec<WebsiteStats>,
}

/// The overview: every registered target with its hourly series.
pub struct WebsiteLogs {
    pub logs: Vec<WebsiteInfo>,
}

/// One target's detail view: hourly series, daily series, incidents.
pub struct SingleWebsiteLogs {
    pub log: WebsiteInfo,
    pub incidents: Vec<Incident>,
    pub monthly_data: Vec<WebsiteStats>,
}

/// Whether the incident list holds an entry with this time and status.
pub open spec fn holds_incident(out: Seq<Incident>, at: int, status: int) -> bool {
    exists|x: Incident| #[trigger] out.contains(x) && x.time as int == at && x.status as int == status
}

/// Whether `e` reports an actual non-success result of the log.
pub open spec fn incident_sound(rcs: Seq<CheckRec>, e: Incident) -> bool {
    exists|m: int|
        0 <= m < rcs.len() && (#[trigger] rcs[m]).at == e.time as int && rcs[m].status == e.status
            as int && rcs[m].status != SUCCESS_STATUS as int
}

/// The incident extractor's contract: exactly the non-success results,
/// strictly ascending by time, no bucketing and no deduplication.
pub open spec fn incident_list_ok(rcs: Seq<CheckRec>, out: Seq<Incident>) -> bool {
    &&& forall|i: int, j: int| 0 <= i < j < out.len() ==> out[i].time < out[j].time
    &&& forall|i: int| 0 <= i < out.len() ==> #[trigger] incident_sound(rcs, out[i])
    &&& forall|k: int|
        0 <= k < rcs.len() && (#[trigger] rcs[k]).status != SUCCESS_STATUS as int ==> holds_incident(
            out,
            rcs[k].at,
            rcs[k].status,
        )
}

/// A report sound for a prefix of the log is sound for one result more.
proof fn lemma_incident_sound_extend(rcs: Seq<CheckRec>, k: int, e: Incident)
    requires
        0 <= k < rcs.len(),
        incident_sound(rcs.take(k), e),
    ensures
        incident_sound(rcs.take(k + 1), e),
{
    let m = choose|m: int|
        0 <= m < rcs.take(k).len() && (#[trigger] rcs.take(k)[m]).at == e.time as int && rcs.take(
            k,
        )[m].status == e.status as int && rcs.take(k)[m].status != SUCCESS_STATUS as int;
    assert(rcs.take(k + 1)[m] == rcs.take(k)[m]);
}

/// Insert one incident into a strictly ascending list at its position.
fn insert_asc(v: &mut Vec<Incident>, e: Incident)
    requires
        forall|i: int, j: int| 0 <= i < j < old(v)@.len() ==> old(v)@[i].time < old(v)@[j].time,
        forall|k: int| 0 <= k < old(v)@.len() ==> (#[trigger] old(v)@[k]).time != e.time,
    ensures
        forall|i: int, j: int|
            0 <= i < j < final(v)@.len() ==> final(v)@[i].time < final(v)@[j].time,
        final(v)@.len() == old(v)@.len() + 1,
        forall|x: Incident| #[trigger] final(v)@.contains(x) <==> (old(v)@.contains(x) || x == e),
{
    let mut idx: usize = 0;
    while idx < v.len() && v[idx].time < e.time
        invariant
            idx <= v@.len(),
            *v == *old(v),
            forall|k: int| 0 <= k < idx ==> (#[trigger] v@[k]).time < e.time,
        decreases v@.len() - idx,
    {
        idx += 1;
    }
    let ghost pre = v@;
    let ghost pos = idx as int;
    proof {
        if pos < pre.len() {
            assert(pre[pos].time > e.time);
        }
    }
    v.insert(idx, e);
    proof {
        pre.insert_ensures(pos, e);
        assert forall|i: int, j: int| 0 <= i < j < v@.len() implies v@[i].time < v@[j].time by {
            if j < pos {
            } else if i < pos && j == pos {
            } else if i < pos && j > pos {
                assert(v@[j] == pre[j - 1]);
                if j - 1 == pos {
                    assert(pre[pos].time > e.time);
                } else {
                    assert(pre[pos].time > e.time);
                    assert(pre[j - 1].time > pre[pos].time);
                }
            } else if i == pos {
                assert(v@[j] == pre[j - 1]);
                if j - 1 == pos {
                    assert(pre[pos].time > e.time);
                } else {
                    assert(pre[pos].time > e.time);
                    assert(pre[j - 1].time > pre[pos].time);
                }
            } else {
                assert(v@[i] == pre[i - 1] && v@[j] == pre[j - 1]);
            }
        }
        assert forall|x: Incident| #[trigger] v@.contains(x) implies (pre.contains(x) || x == e) by {
            let k = choose|k: int| 0 <= k < v@.len() && v@[k] == x;
            if k < pos {
                assert(pre[k] == x);
            } else if k == pos {
            } else {
                assert(pre[k - 1] == x);
            }
        }
        assert forall|x: Incident| pre.contains(x) || x == e implies #[trigger] v@.contains(x) by {
            if x == e {
                assert(v@[pos] == e);
            } else {
                let k = choose|k: int| 0 <= k < pre.len() && pre[k] == x;
                if k < pos {
                    assert(v@[k] == x);
                } else {
                    assert(v@[k + 1] == x);
                }
            }
        }
    }
}

/// Derive the chronological incident list of one target's results:
/// every check whose status is not the success code, each failing
/// check one event, ascending by time.
pub fn extract_incidents(results: &Vec<CheckResult>) -> (out: Vec<Incident>)
    requires
        forall|i: int, j: int|
            0 <= i < j < results_view(results@).len() ==> results_view(results@)[i].at
                != results_view(results@)[j].at,
    ensures
        incident_list_ok(results_view(results@), out@),
{
    let ghost rcs = results_view(results@);
    let mut out: Vec<Incident> = Vec::new();
    let mut k: usize = 0;
    while k < results.len()
        invariant
            k <= results@.len(),
            rcs == results_view(results@),
            forall|i: int, j: int| 0 <= i < j < rcs.len() ==> rcs[i].at != rcs[j].at,
            forall|i: int, j: int| 0 <= i < j < out@.len() ==> out@[i].time < out@[j].time,
            forall|i: int|
                0 <= i < out@.len() ==> #[trigger] incident_sound(rcs.take(k as int), out@[i]),
            forall|m: int|
                0 <= m < k && (#[trigger] rcs[m]).status != SUCCESS_STATUS as int ==> holds_incident(
                    out@,
                    rcs[m].at,
                    rcs[m].status,
                ),
        decreases results@.len() - k,
    {
        let r = &results[k];
        proof {
            assert(rcs[k as int].at == r.observed_at as int);
            assert(rcs[k as int].status == r.status as int);
        }
        if r.status != SUCCESS_STATUS {
            let e = Incident { time: r.observed_at, status: r.status };
            proof {
                assert forall|m: int| 0 <= m < out@.len() implies (#[trigger] out@[m]).time
                    != e.time by {
                    assert(incident_sound(rcs.take(k as int), out@[m]));
                    let j = choose|j: int|
                        0 <= j < rcs.take(k as int).len() && (#[trigger] rcs.take(k as int)[j]).at
                            == out@[m].time as int && rcs.take(k as int)[j].status == out@[m].status
                            as int && rcs.take(k as int)[j].status != SUCCESS_STATUS as int;
                    assert(rcs[j] == rcs.take(k as int)[j]);
                    assert(rcs[j].at != rcs[k as int].at);
                }
            }
            let ghost prev = out@;
            insert_asc(&mut out, e);
            proof {
                assert forall|i: int| 0 <= i < out@.len() implies #[trigger] incident_sound(
                    rcs.take(k + 1),
                    out@[i],
                ) by {
                    assert(out@.contains(out@[i]));
                    if out@[i] == e {
                        assert(rcs.take(k + 1)[k as int] == rcs[k as int]);
                        assert(incident_sound(rcs.take(k + 1), e));
                    } else {
                        assert(prev.contains(out@[i]));
                        let p = choose|p: int| 0 <= p < prev.len() && prev[p] == out@[i];
                        assert(incident_sound(rcs.take(k as int), prev[p]));
                        lemma_incident_sound_extend(rcs, k as int, out@[i]);
                    }
                }
                assert forall|m: int|
                    0 <= m < k + 1 && (#[trigger] rcs[m]).status != SUCCESS_STATUS
                        as int implies holds_incident(out@, rcs[m].at, rcs[m].status) by {
                    if m < k {
                        assert(holds_incident(prev, rcs[m].at, rcs[m].status));
                        let x = choose|x: Incident| #[trigger]
                            prev.contains(x) && x.time as int == rcs[m].at && x.status as int
                                == rcs[m].status;
                        assert(out@.contains(x));
                    } else {
                        assert(out@.contains(e));
                    }
                }
            }
        } else {
            proof {
                assert forall|i: int| 0 <= i < out@.len() implies #[trigger] incident_sound(
                    rcs.take(k + 1),
                    out@[i],
                ) by {
                    lemma_incident_sound_extend(rcs, k as int, out@[i]);
                }
            }
        }
        k += 1;
    }
    proof {
        assert(rcs.take(rcs.len() as int) =~= rcs);
        assert forall|i: int| 0 <= i < out@.len() implies #[trigger] incident_sound(
            rcs,
            out@[i],
        ) by {
            assert(incident_sound(rcs.take(rcs.len() as int), out@[i]));
        }
    }
    out
}

/// The 24-entry hourly uptime series of one target, most recent first.
pub fn get_daily_stats(store: &Store, alias: &String, now: i64) -> (out: Vec<WebsiteStats>)
    requires
        0 <= now,
    ensures
        display_series_ok(results_of(store@.results, alias@), 3600, 24, now as int, out@),
{
    let rs = store.query_check_results(alias);
    display_series(&rs, SplitBy::Hour, HOURLY_SPLITS, now)
}

/// The 30-entry daily uptime series of one target, most recent first.
pub fn get_monthly_stats(store: &Store, alias: &String, now: i64) -> (out: Vec<WebsiteStats>)
    requires
        0 <= now,
    ensures
        display_series_ok(results_of(store@.results, alias@), 86400, 30, now as int, out@),
{
    let rs = store.query_check_results(alias);
    display_series(&rs, SplitBy::Day, DAILY_SPLITS, now)
}

/// The overview served to the presentation layer: every registered
/// target, in registration order, with its hourly series.  A deleted
/// target no longer stands in the registry, so it is omitted entirely.
pub fn get_websites(store: &Store, now: i64) -> (r: WebsiteLogs)
    requires
        0 <= now,
    ensures
        r.logs@.len() == store@.targets.len(),
        forall|i: int|
            0 <= i < r.logs@.len() ==> (#[trigger] r.logs@[i]).alias@ == store@.targets[i].alias
                && r.logs@[i].url@ == store@.targets[i].url && display_series_ok(
                results_of(store@.results, store@.targets[i].alias),
                3600,
                24,
                now as int,
                r.logs@[i].data@,
            ),
{
    let targets = store.list_targets();
    let mut logs: Vec<WebsiteInfo> = Vec::new();
    let mut i: usize = 0;
    while i < targets.len()
        invariant
            i <= targets@.len(),
            0 <= now,
            crate::store::targets_view(targets@) == store@.targets,
            logs@.len() == i,
            forall|j: int|
                0 <= j < i ==> (#[trigger] logs@[j]).alias@ == store@.targets[j].alias
                    && logs@[j].url@ == store@.targets[j].url && display_series_ok(
                    results_of(store@.results, store@.targets[j].alias),
                    3600,
                    24,
                    now as int,
                    logs@[j].data@,
                ),
        decreases targets@.len() - i,
    {
        let t = &targets[i];
        proof {
            assert(crate::store::targets_view(targets@)[i as int] == t@);
        }
        let data = get_daily_stats(store, &t.alias, now);
        logs.push(WebsiteInfo { url: t.url.clone(), alias: t.alias.clone(), data });
        i += 1;
    }
    WebsiteLogs { logs }
}

/// One target's detail view: its hourly and daily series and its
/// chronological incident list, or `None` for an unknown alias.
pub fn get_website_by_alias(store: &Store, alias: &String, now: i64) -> (r: Option<
    SingleWebsiteLogs,
>)
    requires
        0 <= now,
    ensures
        r is Some <==> has_alias(store@.targets, alias@),
        match r {
            Some(sw) => {
                &&& sw.log.alias@ == alias@
                &&& exists|i: int|
                    0 <= i < store@.targets.len() && (#[trigger] store@.targets[i]).alias == alias@
                        && store@.targets[i].url == sw.log.url@
                &&& display_series_ok(
                    results_of(store@.results, alias@),
                    3600,
                    24,
                    now as int,
                    sw.log.data@,
                )
                &&& display_series_ok(
                    results_of(store@.results, alias@),
                    86400,
                    30,
                    now as int,
                    sw.monthly_data@,
                )
                &&& incident_list_ok(results_of(store@.results, alias@), sw.incidents@)
            },
            None => !has_alias(store@.targets, alias@),
        },
{
    let url = match store.target_url(alias) {
        Some(u) => u,
        None => {
            return None;
        },
    };
    let data = get_daily_stats(store, alias, now);
    let monthly_data = get_monthly_stats(store, alias, now);
    let rs = store.query_check_results(alias);
    proof {
        let rsv = results_view(rs@);
        assert forall|i: int, j: int| 0 <= i < j < rsv.len() implies rsv[i].at != rsv[j].at by {
            assert(rsv[i].alias == alias@ && rsv[j].alias == alias@);
            assert(!(rsv[i].alias == rsv[j].alias && crate::timeslot::slot_of(rsv[i].at)
                == crate::timeslot::slot_of(rsv[j].at)));
        }
    }
    let incidents = extract_incidents(&rs);
    let log = WebsiteInfo { url, alias: alias.clone(), data };
    Some(SingleWebsiteLogs { log, incidents, monthly_data })
}

} // verus!
