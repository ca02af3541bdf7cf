use vstd::prelude::*;

use crate::timeslot::{bucket_of, slot_of};

verus! {

/// Status stored for a check whose HTTP request succeeded and
/// whose endpoint answered with success.
pub const SUCCESS_STATUS: i16 = 200;

/// Out-of-band status recorded when the probe could not reach the
/// target at all (timeout, DNS failure, connection refused, ...).
pub const FAILURE_SENTINEL: i16 = 0;

/// A monitored endpoint: a globally unique alias and the URL probed.
pub struct Target {
    pub alias: String,
    pub url: String,
}

/// Mathematical image of a `Target`.
pub struct TargetRec {
    pub alias: Seq<char>,
    pub url: Seq<char>,
}

impl View for Target {
    type V = TargetRec;

    open spec fn view(&self) -> TargetRec {
        TargetRec { alias: self.alias@, url: self.url@ }
    }
}

/// One observed outcome of probing a target at a point in time.
pub struct CheckResult {
    pub target_alias: String,
    pub observed_at: i64,
    pub status: i16,
}

/// Mathematical image of a `CheckResult`.
pub struct CheckRec {
    pub alias: Seq<char>,
    pub at: int,
    pub status: int,
}

impl View for CheckResult {
    type V = CheckRec;

    open spec fn view(&self) -> CheckRec {
        CheckRec {
            alias: self.target_alias@,
            at: self.observed_at as int,
            status: self.status as int,
        }
    }
}

/// One bucket of a displayed series: its start time and the uptime
/// percentage, or `None` for a synthesized "no data" entry.
#[derive(Clone, Copy, PartialEq, Eq, Debug)]
pub struct WebsiteStats {
    pub time: i64,
    pub uptime_pct: Option<i16>,
}

/// One failing check, surfaced ungrouped and chronologically.
#[derive(Clone, Copy, PartialEq, Eq, Debug)]
pub struct Incident {
    pub time: i64,
    pub status: i16,
}

/// Why a registration was rejected before any persistence.
#[derive(Clone, Copy, PartialEq, Eq, Debug)]
pub enum ValidationFailure {
    DuplicateAlias,
    MalformedUrl,
}

/// Mathematical image of the whole store: the target registry and the
/// append-only log of check results.
pub struct StoreModel {
    pub targets: Seq<TargetRec>,
    pub results: Seq<CheckRec>,
}

/// Whether a target with alias `a` is registered.
pub open spec fn has_alias(ts: Seq<TargetRec>, a: Seq<char>) -> bool {
    exists|i: int| 0 <= i < ts.len() && (#[trigger] ts[i]).alias == a
}

/// No two registered targets share an alias.
pub open spec fn distinct_aliases(ts: Seq<TargetRec>) -> bool {
    forall|i: int, j: int|
        0 <= i < j < ts.len() ==> (#[trigger] ts[i]).alias != (#[trigger] ts[j]).alias
}

/// Whether the log already holds a result for `a` in the minute slot of `t`.
pub open spec fn slot_taken(rs: Seq<CheckRec>, a: Seq<char>, t: int) -> bool {
    exists|i: int|
        0 <= i < rs.len() && (#[trigger] rs[i]).alias == a && slot_of(rs[i].at) == slot_of(t)
}

/// Every result references a registered target.
pub open spec fn results_reference(ts: Seq<TargetRec>, rs: Seq<CheckRec>) -> bool {
    forall|i: int| 0 <= i < rs.len() ==> has_alias(ts, (#[trigger] rs[i]).alias)
}

/// Every result carries a non-negative timestamp.
pub open spec fn results_nonneg(rs: Seq<CheckRec>) -> bool {
    forall|i: int| 0 <= i < rs.len() ==> 0 <= (#[trigger] rs[i]).at
}

/// At most one result per (alias, minute slot): the recorder's
/// idempotency key is unique over the whole log.
pub open spec fn slots_unique(rs: Seq<CheckRec>) -> bool {
    forall|i: int, j: int|
        0 <= i < j < rs.len() ==> !((#[trigger] rs[i]).alias == (#[trigger] rs[j]).alias
            && slot_of(rs[i].at) == slot_of(rs[j].at))
}

/// Store well-formedness: unique aliases, every result referencing a
/// registered target, non-negative timestamps, and at most one result
/// per (alias, minute slot).
pub open spec fn store_wf(m: StoreModel) -> bool {
    &&& distinct_aliases(m.targets)
    &&& results_reference(m.targets, m.results)
    &&& results_nonneg(m.results)
    &&& slots_unique(m.results)
}

/// The registry without the target called `a`, order otherwise kept.
pub open spec fn targets_without(ts: Seq<TargetRec>, a: Seq<char>) -> Seq<TargetRec>
    decreases ts.len(),
{
    if ts.len() == 0 {
        Seq::empty()
    } else {
        let rest = targets_without(ts.drop_last(), a);
        if ts.last().alias == a {
            rest
        } else {
            rest.push(ts.last())
        }
    }
}

/// The log without every result of target `a`, order otherwise kept.
pub open spec fn results_without(rs: Seq<CheckRec>, a: Seq<char>) -> Seq<CheckRec>
    decreases rs.len(),
{
    if rs.len() == 0 {
        Seq::empty()
    } else {
        let rest = results_without(rs.drop_last(), a);
        if rs.last().alias == a {
            rest
        } else {
            rest.push(rs.last())
        }
    }
}

/// All results of target `a`, in log order.
pub open spec fn results_of(rs: Seq<CheckRec>, a: Seq<char>) -> Seq<CheckRec>
    decreases rs.len(),
{
    if rs.len() == 0 {
        Seq::empty()
    } else {
        let rest = results_of(rs.drop_last(), a);
        if rs.last().alias == a {
            rest.push(rs.last())
        } else {
            rest
        }
    }
}

/// Whether a URL is syntactically valid.  This names the verdict of the
/// outside URL check (see `store::url_is_wellformed`); nothing else is
/// assumed of it.
pub uninterp spec fn url_wellformed(url: Seq<char>) -> bool;

/// Whether registering (`alias`, `url`) is accepted: the alias is new
/// and the URL is syntactically valid.
pub open spec fn insert_accepted(m: StoreModel, alias: Seq<char>, url: Seq<char>) -> bool {
    !has_alias(m.targets, alias) && url_wellformed(url)
}

/// The store after a registration attempt: the target is appended when
/// accepted, nothing changes when rejected.
pub open spec fn spec_insert_target(m: StoreModel, alias: Seq<char>, url: Seq<char>) -> StoreModel {
    if insert_accepted(m, alias, url) {
        StoreModel { targets: m.targets.push(TargetRec { alias, url }), results: m.results }
    } else {
        m
    }
}

/// The store after deleting target `a`: the target leaves the registry
/// and every one of its results is removed with it.
pub open spec fn spec_delete_target(m: StoreModel, a: Seq<char>) -> StoreModel {
    StoreModel { targets: targets_without(m.targets, a), results: results_without(m.results, a) }
}

/// The store after recording one check: the result is appended unless
/// the target is unknown (the insert is silently dropped) or its minute
/// slot is already taken (the recorder is idempotent).
pub open spec fn spec_append_result(m: StoreModel, a: Seq<char>, at: int, status: int) -> StoreModel {
    if has_alias(m.targets, a) && !slot_taken(m.results, a, at) {
        StoreModel { targets: m.targets, results: m.results.push(CheckRec { alias: a, at, status }) }
    } else {
        m
    }
}

/// How many results of `rs` carry alias `a` and fall in the minute slot of `t`.
pub open spec fn count_in_slot(rs: Seq<CheckRec>, a: Seq<char>, t: int) -> nat
    decreases rs.len(),
{
    if rs.len() == 0 {
        0
    } else {
        count_in_slot(rs.drop_last(), a, t) + if rs.last().alias == a && slot_of(rs.last().at)
            == slot_of(t) {
            1nat
        } else {
            0nat
        }
    }
}

/// How many results of `rs` fall in the bucket of width `w` starting at `s`.
pub open spec fn bucket_total(rs: Seq<CheckRec>, w: int, s: int) -> nat
    decreases rs.len(),
{
    if rs.len() == 0 {
        0
    } else {
        bucket_total(rs.drop_last(), w, s) + if bucket_of(w, rs.last().at) == s {
            1nat
        } else {
            0nat
        }
    }
}

/// How many successful results of `rs` fall in that bucket.
pub open spec fn bucket_succ(rs: Seq<CheckRec>, w: int, s: int) -> nat
    decreases rs.len(),
{
    if rs.len() == 0 {
        0
    } else {
        bucket_succ(rs.drop_last(), w, s) + if bucket_of(w, rs.last().at) == s && rs.last().status
            == SUCCESS_STATUS as int {
            1nat
        } else {
            0nat
        }
    }
}

/// Whether at least one result of `rs` falls in the bucket starting at `s`.
pub open spec fn is_start(rs: Seq<CheckRec>, w: int, s: int) -> bool {
    exists|i: int| 0 <= i < rs.len() && bucket_of(w, (#[trigger] rs[i]).at) == s
}

/// The bucket starts of all results, with repetitions.
pub open spec fn starts_seq(rs: Seq<CheckRec>, w: int) -> Seq<int> {
    rs.map_values(|r: CheckRec| bucket_of(w, r.at))
}

/// How many distinct buckets hold at least one result.
pub open spec fn num_starts(rs: Seq<CheckRec>, w: int) -> nat {
    starts_seq(rs, w).to_set().len()
}

/// Uptime percentage of a bucket: integer floor of `succ * 100 / total`.
pub open spec fn pct_of(succ: nat, total: nat) -> int {
    (succ * 100) as int / total as int
}

/// Times strictly decreasing: most recent first, no duplicates.
pub open spec fn strictly_desc(s: Seq<WebsiteStats>) -> bool {
    forall|i: int, j: int| 0 <= i < j < s.len() ==> s[i].time > s[j].time
}

/// Times pairwise distinct.
pub open spec fn stats_times_distinct(s: Seq<WebsiteStats>) -> bool {
    forall|i: int, j: int| 0 <= i < j < s.len() ==> s[i].time != s[j].time
}

} // verus!
