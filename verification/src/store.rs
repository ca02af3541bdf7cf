use vstd::prelude::*;

use crate::model::{
    count_in_slot, distinct_aliases, has_alias, insert_accepted, results_nonneg, results_of,
    results_without, slot_taken, slots_unique, spec_append_result,
    spec_delete_target, spec_insert_target, store_wf, targets_without, url_wellformed, CheckRec,
    CheckResult, StoreModel, Target, TargetRec, ValidationFailure,
};
use crate::timeslot::{slot_of, truncate_minute};

verus! {

broadcast use vstd::seq_lib::group_seq_properties;

/// Relies on the validator crate: `<String as validator::ValidateUrl>::validate_url`
/// answers whether the string parses as a URL (`url::Url::parse` succeeds),
/// a verdict that depends on the string alone; `url_wellformed` names it.
#[verifier::external_body]
fn url_is_wellformed(url: &String) -> (r: bool)
    ensures
        r == url_wellformed(url@),
{
    validator::ValidateUrl::validate_url(url)
}

/// The spec image of a target vector.
pub open spec fn targets_view(ts: Seq<Target>) -> Seq<TargetRec> {
    ts.map_values(|t: Target| t@)
}

/// The spec image of a result vector.
pub open spec fn results_view(rs: Seq<CheckResult>) -> Seq<CheckRec> {
    rs.map_values(|r: CheckResult| r@)
}

/// The target registry and the append-only log of check results,
/// kept well-formed by construction: aliases unique, every result
/// referencing a registered target, and at most one result per
/// (alias, minute slot).
pub struct Store {
    targets: Vec<Target>,
    results: Vec<CheckResult>,
}

impl View for Store {
    type V = StoreModel;

    closed spec fn view(&self) -> StoreModel {
        StoreModel { targets: targets_view(self.targets@), results: results_view(self.results@) }
    }
}

impl Store {
    #[verifier::type_invariant]
    spec fn inv(self) -> bool {
        store_wf(self@)
    }

    /// An empty store: no targets, no results.
    pub fn new() -> (s: Store)
        ensures
            s@ == (StoreModel { targets: Seq::<TargetRec>::empty(), results: Seq::<CheckRec>::empty() }),
    {
        let s = Store { targets: Vec::new(), results: Vec::new() };
        proof {
            assert(s@ =~= StoreModel {
                targets: Seq::<TargetRec>::empty(),
                results: Seq::<CheckRec>::empty(),
            });
        }
        s
    }

    /// The current registry, fresh on every call, in registration order.
    pub fn list_targets(&self) -> (out: Vec<Target>)
        ensures
            targets_view(out@) == self@.targets,
            store_wf(self@),
    {
        proof {
            use_type_invariant(&*self);
        }
        let mut out: Vec<Target> = Vec::new();
        let mut i: usize = 0;
        while i < self.targets.len()
            invariant
                i <= self.targets@.len(),
                targets_view(out@) =~= targets_view(self.targets@).take(i as int),
            decreases self.targets@.len() - i,
        {
            let t = &self.targets[i];
            let ghost prev = out@;
            out.push(Target { alias: t.alias.clone(), url: t.url.clone() });
            proof {
                assert(targets_view(out@) =~= targets_view(prev).push(self.targets@[i as int]@));
                assert(targets_view(self.targets@).take(i + 1) =~= targets_view(
                    self.targets@,
                ).take(i as int).push(self.targets@[i as int]@));
            }
            i += 1;
        }
        proof {
            assert(targets_view(self.targets@).take(self.targets@.len() as int) =~= self@.targets);
        }
        out
    }

    /// The URL a target was registered with, or `None` for an unknown alias.
    pub fn target_url(&self, alias: &String) -> (r: Option<String>)
        ensures
            match r {
                Some(u) => has_alias(self@.targets, alias@) && (exists|i: int|
                    0 <= i < self@.targets.len() && (#[trigger] self@.targets[i]).alias == alias@
                        && self@.targets[i].url == u@),
                None => !has_alias(self@.targets, alias@),
            },
            store_wf(self@),
    {
        proof {
            use_type_invariant(&*self);
        }
        let mut i: usize = 0;
        while i < self.targets.len()
            invariant
                i <= self.targets@.len(),
                store_wf(self@),
                forall|k: int| 0 <= k < i ==> (#[trigger] self@.targets[k]).alias != alias@,
            decreases self.targets@.len() - i,
        {
            let t = &self.targets[i];
            if t.alias == *alias {
                let u = t.url.clone();
                proof {
                    assert((#[trigger] self@.targets[i as int]).alias == alias@);
                    assert(self@.targets[i as int].url == u@);
                }
                return Some(u);
            }
            i += 1;
        }
        None
    }

    /// Register a target.  Rejected with `ValidationFailure` before any
    /// persistence when the alias is taken or the URL is malformed.
    pub fn insert_target(&mut self, alias: String, url: String) -> (r: Result<(), ValidationFailure>)
        ensures
            final(self)@ == spec_insert_target(old(self)@, alias@, url@),
            r is Ok <==> insert_accepted(old(self)@, alias@, url@),
            (r == Err::<(), ValidationFailure>(ValidationFailure::DuplicateAlias)) <==> has_alias(
                old(self)@.targets,
                alias@,
            ),
            (r == Err::<(), ValidationFailure>(ValidationFailure::MalformedUrl)) <==> (!has_alias(
                old(self)@.targets,
                alias@,
            ) && !url_wellformed(url@)),
    {
        proof {
            use_type_invariant(&*self);
        }
        if contains_alias(&self.targets, &alias) {
            return Err(ValidationFailure::DuplicateAlias);
        }
        if !url_is_wellformed(&url) {
            return Err(ValidationFailure::MalformedUrl);
        }
        let ghost m0 = self@;
        let mut rs: Vec<CheckResult> = Vec::new();
        core::mem::swap(&mut rs, &mut self.results);
        let mut ts: Vec<Target> = Vec::new();
        core::mem::swap(&mut ts, &mut self.targets);
        let ghost av = alias@;
        let ghost uv = url@;
        ts.push(Target { alias, url });
        proof {
            assert(targets_view(ts@) =~= m0.targets.push(TargetRec { alias: av, url: uv }));
            assert forall|i: int, j: int|
                0 <= i < j < targets_view(ts@).len() implies (#[trigger] targets_view(ts@)[i]).alias
                != (#[trigger] targets_view(ts@)[j]).alias by {
                if j < m0.targets.len() {
                    assert(distinct_aliases(m0.targets));
                } else {
                    assert(targets_view(ts@)[j].alias == av);
                    assert(!has_alias(m0.targets, av));
                }
            }
        }
        core::mem::swap(&mut ts, &mut self.targets);
        proof {
            assert(results_view(rs@) =~= m0.results);
            assert forall|i: int| 0 <= i < m0.results.len() implies has_alias(
                targets_view(self.targets@),
                (#[trigger] m0.results[i]).alias,
            ) by {
                assert(has_alias(m0.targets, m0.results[i].alias));
                let k = choose|k: int|
                    0 <= k < m0.targets.len() && (#[trigger] m0.targets[k]).alias
                        == m0.results[i].alias;
                assert(targets_view(self.targets@)[k].alias == m0.results[i].alias);
            }
        }
        core::mem::swap(&mut rs, &mut self.results);
        proof {
            assert(final(self)@ =~= spec_insert_target(m0, av, uv));
        }
        Ok(())
    }

    /// Delete a target.  The deletion cascades: every check result of
    /// the alias is removed with it; an unknown alias removes nothing.
    pub fn delete_target(&mut self, alias: &String)
        ensures
            final(self)@ == spec_delete_target(old(self)@, alias@),
    {
        proof {
            use_type_invariant(&*self);
            lemma_targets_without(old(self)@.targets, alias@);
            lemma_results_without(old(self)@.results, alias@);
        }
        let ghost m0 = self@;
        let mut ts2: Vec<Target> = Vec::new();
        let mut i: usize = 0;
        while i < self.targets.len()
            invariant
                i <= self.targets@.len(),
                m0 == self@,
                targets_view(ts2@) =~= targets_without(m0.targets.take(i as int), alias@),
            decreases self.targets@.len() - i,
        {
            let t = &self.targets[i];
            let keep = !(t.alias == *alias);
            proof {
                assert(m0.targets.take(i + 1).drop_last() =~= m0.targets.take(i as int));
                assert(m0.targets.take(i + 1).last() == m0.targets[i as int]);
            }
            if keep {
                ts2.push(Target { alias: t.alias.clone(), url: t.url.clone() });
                proof {
                    assert(targets_view(ts2@) =~= targets_without(m0.targets.take(i + 1), alias@));
                }
            }
            i += 1;
        }
        proof {
            assert(m0.targets.take(m0.targets.len() as int) =~= m0.targets);
        }
        let mut rs2: Vec<CheckResult> = Vec::new();
        let mut j: usize = 0;
        while j < self.results.len()
            invariant
                j <= self.results@.len(),
                m0 == self@,
                results_view(rs2@) =~= results_without(m0.results.take(j as int), alias@),
            decreases self.results@.len() - j,
        {
            let r = &self.results[j];
            let keep = !(r.target_alias == *alias);
            proof {
                assert(m0.results.take(j + 1).drop_last() =~= m0.results.take(j as int));
                assert(m0.results.take(j + 1).last() == m0.results[j as int]);
            }
            if keep {
                rs2.push(CheckResult {
                    target_alias: r.target_alias.clone(),
                    observed_at: r.observed_at,
                    status: r.status,
                });
                proof {
                    assert(results_view(rs2@) =~= results_without(m0.results.take(j + 1), alias@));
                }
            }
            j += 1;
        }
        proof {
            assert(m0.results.take(m0.results.len() as int) =~= m0.results);
            lemma_delete_preserves_wf(m0, alias@);
        }
        core::mem::swap(&mut rs2, &mut self.results);
        core::mem::swap(&mut ts2, &mut self.targets);
        proof {
            assert(final(self)@ =~= spec_delete_target(m0, alias@));
        }
    }

    /// Record one check result.  Idempotent per (alias, minute slot);
    /// a result for an unregistered alias is silently dropped, so a
    /// deletion racing with an in-flight cycle cannot fail the recorder.
    pub fn append_check_result(&mut self, alias: &String, observed_at: i64, status: i16)
        requires
            0 <= observed_at,
        ensures
            final(self)@ == spec_append_result(
                old(self)@,
                alias@,
                observed_at as int,
                status as int,
            ),
    {
        proof {
            use_type_invariant(&*self);
        }
        let ghost m0 = self@;
        if !contains_alias(&self.targets, alias) {
            return;
        }
        if slot_is_taken(&self.results, alias, observed_at) {
            return;
        }
        let rec = CheckResult { target_alias: alias.clone(), observed_at, status };
        let ghost recv = rec@;
        let mut rs: Vec<CheckResult> = Vec::new();
        core::mem::swap(&mut rs, &mut self.results);
        rs.push(rec);
        proof {
            assert(results_view(rs@) =~= m0.results.push(recv));
            assert forall|i: int, j: int|
                0 <= i < j < results_view(rs@).len() implies !((#[trigger] results_view(
                rs@,
            )[i]).alias == (#[trigger] results_view(rs@)[j]).alias && slot_of(results_view(rs@)[i].at)
                == slot_of(results_view(rs@)[j].at)) by {
                if j < m0.results.len() {
                    assert(slots_unique(m0.results));
                } else {
                    assert(results_view(rs@)[j] == recv);
                    assert(!slot_taken(m0.results, alias@, observed_at as int));
                }
            }
        }
        core::mem::swap(&mut rs, &mut self.results);
        proof {
            assert(recv == (CheckRec {
                alias: alias@,
                at: observed_at as int,
                status: status as int,
            }));
            assert(final(self)@ =~= spec_append_result(
                m0,
                alias@,
                observed_at as int,
                status as int,
            ));
        }
    }

    /// All stored results of one target, in log order.
    pub fn query_check_results(&self, alias: &String) -> (out: Vec<CheckResult>)
        ensures
            results_view(out@) == results_of(self@.results, alias@),
            store_wf(self@),
            slots_unique(results_view(out@)),
            results_nonneg(results_view(out@)),
            forall|i: int|
                0 <= i < results_view(out@).len() ==> (#[trigger] results_view(out@)[i]).alias
                    == alias@,
    {
        proof {
            use_type_invariant(&*self);
            lemma_results_of(self@.results, alias@);
        }
        let ghost m0 = self@;
        let mut out: Vec<CheckResult> = Vec::new();
        let mut i: usize = 0;
        while i < self.results.len()
            invariant
                i <= self.results@.len(),
                m0 == self@,
                results_view(out@) =~= results_of(m0.results.take(i as int), alias@),
            decreases self.results@.len() - i,
        {
            let r = &self.results[i];
            proof {
                assert(m0.results.take(i + 1).drop_last() =~= m0.results.take(i as int));
                assert(m0.results.take(i + 1).last() == m0.results[i as int]);
            }
            if r.target_alias == *alias {
                out.push(CheckResult {
                    target_alias: r.target_alias.clone(),
                    observed_at: r.observed_at,
                    status: r.status,
                });
                proof {
                    assert(results_view(out@) =~= results_of(m0.results.take(i + 1), alias@));
                }
            }
            i += 1;
        }
        proof {
            assert(m0.results.take(m0.results.len() as int) =~= m0.results);
        }
        out
    }
}

/// Whether some target of the vector carries the given alias.
fn contains_alias(ts: &Vec<Target>, alias: &String) -> (b: bool)
    ensures
        b == has_alias(targets_view(ts@), alias@),
{
    let mut i: usize = 0;
    while i < ts.len()
        invariant
            i <= ts@.len(),
            forall|k: int| 0 <= k < i ==> (#[trigger] targets_view(ts@)[k]).alias != alias@,
        decreases ts@.len() - i,
    {
        let t = &ts[i];
        if t.alias == *alias {
            proof {
                assert(targets_view(ts@)[i as int].alias == alias@);
            }
            return true;
        }
        i += 1;
    }
    false
}

/// Whether the log already holds a result of `alias` in the minute
/// slot of `observed_at`.
fn slot_is_taken(rs: &Vec<CheckResult>, alias: &String, observed_at: i64) -> (b: bool)
    requires
        0 <= observed_at,
        results_nonneg(results_view(rs@)),
    ensures
        b == slot_taken(results_view(rs@), alias@, observed_at as int),
{
    let slot = truncate_minute(observed_at);
    let mut i: usize = 0;
    while i < rs.len()
        invariant
            i <= rs@.len(),
            slot == slot_of(observed_at as int),
            results_nonneg(results_view(rs@)),
            forall|k: int|
                0 <= k < i ==> !((#[trigger] results_view(rs@)[k]).alias == alias@ && slot_of(
                    results_view(rs@)[k].at,
                ) == slot_of(observed_at as int)),
        decreases rs@.len() - i,
    {
        let r = &rs[i];
        proof {
            assert(results_view(rs@)[i as int].at == r.observed_at as int);
        }
        if r.target_alias == *alias && truncate_minute(r.observed_at) == slot {
            proof {
                assert(results_view(rs@)[i as int].alias == alias@);
            }
            return true;
        }
        i += 1;
    }
    false
}

/// What deleting an alias leaves in the registry: exactly the other
/// targets, distinctness kept.
pub proof fn lemma_targets_without(ts: Seq<TargetRec>, a: Seq<char>)
    ensures
        forall|x: TargetRec| #[trigger]
            targets_without(ts, a).contains(x) <==> (ts.contains(x) && x.alias != a),
        forall|i: int|
            0 <= i < targets_without(ts, a).len() ==> (#[trigger] targets_without(ts, a)[i]).alias
                != a,
        distinct_aliases(ts) ==> distinct_aliases(targets_without(ts, a)),
        forall|b: Seq<char>| #[trigger]
            has_alias(targets_without(ts, a), b) <==> (has_alias(ts, b) && b != a),
    decreases ts.len(),
{
    if ts.len() == 0 {
        assert forall|b: Seq<char>| !(#[trigger] has_alias(targets_without(ts, a), b)) by {
            assert(targets_without(ts, a).len() == 0);
        }
        assert forall|b: Seq<char>| !(#[trigger] has_alias(ts, b)) by {}
    } else {
        let pre = ts.drop_last();
        let last = ts.last();
        lemma_targets_without(pre, a);
        assert(ts =~= pre.push(last));
        let res = targets_without(ts, a);
        let rest = targets_without(pre, a);
        if last.alias == a {
            assert(res == rest);
            assert forall|b: Seq<char>| #[trigger]
                has_alias(ts, b) implies (has_alias(pre, b) || b == a) by {
                let k = choose|k: int| 0 <= k < ts.len() && (#[trigger] ts[k]).alias == b;
                if k < pre.len() {
                    assert(pre[k].alias == b);
                } else {
                    assert(ts[k] == last);
                }
            }
            assert forall|b: Seq<char>| has_alias(pre, b) implies #[trigger] has_alias(ts, b) by {
                let k = choose|k: int| 0 <= k < pre.len() && (#[trigger] pre[k]).alias == b;
                assert(ts[k].alias == b);
            }
        } else {
            assert(res == rest.push(last));
            assert forall|x: TargetRec| #[trigger] res.contains(x) implies (ts.contains(x)
                && x.alias != a) by {
                if rest.contains(x) {
                    assert(pre.contains(x));
                    let k = choose|k: int| 0 <= k < pre.len() && pre[k] == x;
                    assert(ts[k] == x);
                } else {
                    assert(x == last);
                    assert(ts[ts.len() - 1] == last);
                }
            }
            assert forall|x: TargetRec| ts.contains(x) && x.alias != a implies #[trigger]
                res.contains(x) by {
                let k = choose|k: int| 0 <= k < ts.len() && ts[k] == x;
                if k < pre.len() {
                    assert(pre[k] == x);
                    assert(pre.contains(x));
                } else {
                    assert(x == last);
                }
            }
            if distinct_aliases(ts) {
                assert(distinct_aliases(pre)) by {
                    assert forall|i: int, j: int|
                        0 <= i < j < pre.len() implies (#[trigger] pre[i]).alias
                        != (#[trigger] pre[j]).alias by {
                        assert(ts[i].alias != ts[j].alias);
                    }
                }
                assert forall|i: int, j: int|
                    0 <= i < j < res.len() implies (#[trigger] res[i]).alias
                    != (#[trigger] res[j]).alias by {
                    if j < rest.len() {
                        assert(rest[i].alias != rest[j].alias);
                    } else {
                        assert(res[j] == last);
                        assert(rest.contains(rest[i]));
                        assert(pre.contains(rest[i]));
                        let k = choose|k: int| 0 <= k < pre.len() && pre[k] == rest[i];
                        assert(ts[k].alias != ts[ts.len() - 1].alias);
                    }
                }
            }
            assert forall|b: Seq<char>| #[trigger]
                has_alias(res, b) implies (has_alias(ts, b) && b != a) by {
                let k = choose|k: int| 0 <= k < res.len() && (#[trigger] res[k]).alias == b;
                assert(res.contains(res[k]));
            }
            assert forall|b: Seq<char>| has_alias(ts, b) && b != a implies #[trigger]
                has_alias(res, b) by {
                let k = choose|k: int| 0 <= k < ts.len() && (#[trigger] ts[k]).alias == b;
                assert(ts.contains(ts[k]));
                assert(res.contains(ts[k]));
                let k2 = choose|k2: int| 0 <= k2 < res.len() && res[k2] == ts[k];
                assert(res[k2].alias == b);
            }
        }
    }
}

/// What deleting an alias leaves in the log: exactly the results of the
/// other targets, with slot uniqueness and timestamp bounds kept.
pub proof fn lemma_results_without(rs: Seq<CheckRec>, a: Seq<char>)
    ensures
        forall|x: CheckRec| #[trigger]
            results_without(rs, a).contains(x) <==> (rs.contains(x) && x.alias != a),
        forall|i: int|
            0 <= i < results_without(rs, a).len() ==> (#[trigger] results_without(rs, a)[i]).alias
                != a,
        slots_unique(rs) ==> slots_unique(results_without(rs, a)),
        results_nonneg(rs) ==> results_nonneg(results_without(rs, a)),
    decreases rs.len(),
{
    if rs.len() == 0 {
    } else {
        let pre = rs.drop_last();
        let last = rs.last();
        lemma_results_without(pre, a);
        assert(rs =~= pre.push(last));
        let res = results_without(rs, a);
        let rest = results_without(pre, a);
        assert(slots_unique(rs) ==> slots_unique(pre)) by {
            if slots_unique(rs) {
                assert forall|i: int, j: int|
                    0 <= i < j < pre.len() implies !((#[trigger] pre[i]).alias
                    == (#[trigger] pre[j]).alias && slot_of(pre[i].at) == slot_of(pre[j].at)) by {
                    assert(rs[i] == pre[i] && rs[j] == pre[j]);
                }
            }
        }
        assert(results_nonneg(rs) ==> results_nonneg(pre));
        if last.alias == a {
            assert(res == rest);
        } else {
            assert(res == rest.push(last));
            assert forall|x: CheckRec| #[trigger] res.contains(x) implies (rs.contains(x)
                && x.alias != a) by {
                if rest.contains(x) {
                    assert(pre.contains(x));
                    let k = choose|k: int| 0 <= k < pre.len() && pre[k] == x;
                    assert(rs[k] == x);
                } else {
                    assert(x == last);
                    assert(rs[rs.len() - 1] == last);
                }
            }
            assert forall|x: CheckRec| rs.contains(x) && x.alias != a implies #[trigger]
                res.contains(x) by {
                let k = choose|k: int| 0 <= k < rs.len() && rs[k] == x;
                if k < pre.len() {
                    assert(pre[k] == x);
                    assert(pre.contains(x));
                } else {
                    assert(x == last);
                }
            }
            if slots_unique(rs) {
                assert forall|i: int, j: int|
                    0 <= i < j < res.len() implies !((#[trigger] res[i]).alias
                    == (#[trigger] res[j]).alias && slot_of(res[i].at) == slot_of(res[j].at)) by {
                    if j < rest.len() {
                        assert(!(rest[i].alias == rest[j].alias && slot_of(rest[i].at) == slot_of(
                            rest[j].at,
                        )));
                    } else {
                        assert(res[j] == last);
                        assert(rest.contains(rest[i]));
                        assert(pre.contains(rest[i]));
                        let k = choose|k: int| 0 <= k < pre.len() && pre[k] == rest[i];
                        assert(!(rs[k].alias == rs[rs.len() - 1].alias && slot_of(rs[k].at)
                            == slot_of(rs[rs.len() - 1].at)));
                    }
                }
            }
            if results_nonneg(rs) {
                assert forall|i: int| 0 <= i < res.len() implies 0 <= (#[trigger] res[i]).at by {
                    if i < rest.len() {
                    } else {
                        assert(res[i] == last);
                        assert(0 <= rs[rs.len() - 1].at);
                    }
                }
            }
        }
    }
}

/// What querying one alias returns: exactly that target's results,
/// all carrying the alias, with slot uniqueness and timestamp bounds kept.
pub proof fn lemma_results_of(rs: Seq<CheckRec>, a: Seq<char>)
    ensures
        forall|x: CheckRec| #[trigger]
            results_of(rs, a).contains(x) <==> (rs.contains(x) && x.alias == a),
        forall|i: int|
            0 <= i < results_of(rs, a).len() ==> (#[trigger] results_of(rs, a)[i]).alias == a,
        slots_unique(rs) ==> slots_unique(results_of(rs, a)),
        results_nonneg(rs) ==> results_nonneg(results_of(rs, a)),
    decreases rs.len(),
{
    if rs.len() == 0 {
    } else {
        let pre = rs.drop_last();
        let last = rs.last();
        lemma_results_of(pre, a);
        assert(rs =~= pre.push(last));
        let res = results_of(rs, a);
        let rest = results_of(pre, a);
        assert(slots_unique(rs) ==> slots_unique(pre)) by {
            if slots_unique(rs) {
                assert forall|i: int, j: int|
                    0 <= i < j < pre.len() implies !((#[trigger] pre[i]).alias
                    == (#[trigger] pre[j]).alias && slot_of(pre[i].at) == slot_of(pre[j].at)) by {
                    assert(rs[i] == pre[i] && rs[j] == pre[j]);
                }
            }
        }
        assert(results_nonneg(rs) ==> results_nonneg(pre));
        if last.alias == a {
            assert(res == rest.push(last));
            assert forall|x: CheckRec| #[trigger] res.contains(x) implies (rs.contains(x)
                && x.alias == a) by {
                if rest.contains(x) {
                    assert(pre.contains(x));
                    let k = choose|k: int| 0 <= k < pre.len() && pre[k] == x;
                    assert(rs[k] == x);
                } else {
                    assert(x == last);
                    assert(rs[rs.len() - 1] == last);
                }
            }
            assert forall|x: CheckRec| rs.contains(x) && x.alias == a implies #[trigger]
                res.contains(x) by {
                let k = choose|k: int| 0 <= k < rs.len() && rs[k] == x;
                if k < pre.len() {
                    assert(pre[k] == x);
                    assert(pre.contains(x));
                } else {
                    assert(x == last);
                }
            }
            if slots_unique(rs) {
                assert forall|i: int, j: int|
                    0 <= i < j < res.len() implies !((#[trigger] res[i]).alias
                    == (#[trigger] res[j]).alias && slot_of(res[i].at) == slot_of(res[j].at)) by {
                    if j < rest.len() {
                        assert(!(rest[i].alias == rest[j].alias && slot_of(rest[i].at) == slot_of(
                            rest[j].at,
                        )));
                    } else {
                        assert(res[j] == last);
                        assert(rest.contains(rest[i]));
                        assert(pre.contains(rest[i]));
                        let k = choose|k: int| 0 <= k < pre.len() && pre[k] == rest[i];
                        assert(!(rs[k].alias == rs[rs.len() - 1].alias && slot_of(rs[k].at)
                            == slot_of(rs[rs.len() - 1].at)));
                    }
                }
            }
            if results_nonneg(rs) {
                assert forall|i: int| 0 <= i < res.len() implies 0 <= (#[trigger] res[i]).at by {
                    if i < rest.len() {
                    } else {
                        assert(res[i] == last);
                        assert(0 <= rs[rs.len() - 1].at);
                    }
                }
            }
        } else {
            assert(res == rest);
            assert forall|x: CheckRec| rs.contains(x) && x.alias == a implies #[trigger]
                res.contains(x) by {
                let k = choose|k: int| 0 <= k < rs.len() && rs[k] == x;
                if k < pre.len() {
                    assert(pre[k] == x);
                    assert(pre.contains(x));
                } else {
                    assert(x == last);
                }
            }
            assert forall|x: CheckRec| #[trigger] res.contains(x) implies (rs.contains(x)
                && x.alias == a) by {
                assert(pre.contains(x));
                let k = choose|k: int| 0 <= k < pre.len() && pre[k] == x;
                assert(rs[k] == x);
            }
        }
    }
}

/// Deleting preserves store well-formedness.
pub proof fn lemma_delete_preserves_wf(m: StoreModel, a: Seq<char>)
    requires
        store_wf(m),
    ensures
        store_wf(spec_delete_target(m, a)),
{
    lemma_targets_without(m.targets, a);
    lemma_results_without(m.results, a);
    let md = spec_delete_target(m, a);
    assert forall|i: int| 0 <= i < md.results.len() implies has_alias(
        md.targets,
        (#[trigger] md.results[i]).alias,
    ) by {
        assert(md.results.contains(md.results[i]));
        assert(m.results.contains(md.results[i]));
        let k = choose|k: int| 0 <= k < m.results.len() && m.results[k] == md.results[i];
        assert(has_alias(m.targets, m.results[k].alias));
    }
}

/// How slot occupancy and the count of matching results relate: the
/// slot is taken exactly when the count is positive, and a log with
/// unique slots never holds two matches.
proof fn lemma_count_in_slot(rs: Seq<CheckRec>, a: Seq<char>, t: int)
    ensures
        (count_in_slot(rs, a, t) > 0) <==> slot_taken(rs, a, t),
        slots_unique(rs) ==> count_in_slot(rs, a, t) <= 1,
    decreases rs.len(),
{
    if rs.len() == 0 {
    } else {
        let pre = rs.drop_last();
        let last = rs.last();
        lemma_count_in_slot(pre, a, t);
        assert(slots_unique(rs) ==> slots_unique(pre)) by {
            if slots_unique(rs) {
                assert forall|i: int, j: int|
                    0 <= i < j < pre.len() implies !((#[trigger] pre[i]).alias
                    == (#[trigger] pre[j]).alias && slot_of(pre[i].at) == slot_of(pre[j].at)) by {
                    assert(rs[i] == pre[i] && rs[j] == pre[j]);
                }
            }
        }
        let hit = last.alias == a && slot_of(last.at) == slot_of(t);
        assert(slot_taken(pre, a, t) ==> slot_taken(rs, a, t)) by {
            if slot_taken(pre, a, t) {
                let k = choose|k: int|
                    0 <= k < pre.len() && (#[trigger] pre[k]).alias == a && slot_of(pre[k].at)
                        == slot_of(t);
                assert(rs[k] == pre[k]);
            }
        }
        if hit {
            assert(rs[rs.len() - 1] == last);
            assert(slot_taken(rs, a, t));
            if slots_unique(rs) && slot_taken(pre, a, t) {
                let k = choose|k: int|
                    0 <= k < pre.len() && (#[trigger] pre[k]).alias == a && slot_of(pre[k].at)
                        == slot_of(t);
                assert(rs[k] == pre[k]);
                assert(!(rs[k].alias == rs[rs.len() - 1].alias && slot_of(rs[k].at) == slot_of(
                    rs[rs.len() - 1].at,
                )));
                assert(false);
            }
        } else {
            assert(slot_taken(rs, a, t) ==> slot_taken(pre, a, t)) by {
                if slot_taken(rs, a, t) {
                    let k = choose|k: int|
                        0 <= k < rs.len() && (#[trigger] rs[k]).alias == a && slot_of(rs[k].at)
                            == slot_of(t);
                    assert(k < pre.len());
                    assert(pre[k] == rs[k]);
                }
            }
        }
    }
}

/// Recorder idempotence: recording the same target in the same
/// truncated-minute slot twice stores exactly one result — the second
/// recording leaves the store unchanged, whatever status it carries.
pub proof fn lemma_recorder_idempotent(
    m: StoreModel,
    a: Seq<char>,
    t1: int,
    st1: int,
    t2: int,
    st2: int,
)
    requires
        store_wf(m),
        slot_of(t1) == slot_of(t2),
    ensures
        spec_append_result(spec_append_result(m, a, t1, st1), a, t2, st2) == spec_append_result(
            m,
            a,
            t1,
            st1,
        ),
        has_alias(m.targets, a) ==> count_in_slot(
            spec_append_result(m, a, t1, st1).results,
            a,
            t1,
        ) == 1,
        !has_alias(m.targets, a) ==> spec_append_result(m, a, t1, st1) == m,
{
    let m1 = spec_append_result(m, a, t1, st1);
    lemma_count_in_slot(m.results, a, t1);
    if has_alias(m.targets, a) && !slot_taken(m.results, a, t1) {
        let r = CheckRec { alias: a, at: t1, status: st1 };
        assert(m1.results == m.results.push(r));
        assert(m1.results.drop_last() =~= m.results);
        assert(m1.results.last() == r);
        assert(slot_of(r.at) == slot_of(t1));
        assert(count_in_slot(m1.results, a, t1) == count_in_slot(m.results, a, t1) + 1);
        assert(count_in_slot(m.results, a, t1) == 0);
        assert(m1.results[m.results.len() as int] == r);
        assert(slot_taken(m1.results, a, t2));
        assert(spec_append_result(m1, a, t2, st2) == m1);
    } else {
        assert(m1 == m);
        if has_alias(m.targets, a) {
            assert(slot_taken(m.results, a, t1));
            assert(slot_taken(m.results, a, t2)) by {
                let k = choose|k: int|
                    0 <= k < m.results.len() && (#[trigger] m.results[k]).alias == a && slot_of(
                        m.results[k].at,
                    ) == slot_of(t1);
                assert(slot_of(m.results[k].at) == slot_of(t2));
            }
            assert(count_in_slot(m.results, a, t1) == 1);
            assert(spec_append_result(m, a, t2, st2) == m);
        } else {
            assert(spec_append_result(m, a, t2, st2) == m);
        }
    }
}

/// Deleting a target cascades: afterwards the registry no longer holds
/// the alias and the log holds none of its results, so an overview
/// built from the remaining registry omits the target entirely.
pub proof fn lemma_delete_removes_all(m: StoreModel, a: Seq<char>)
    ensures
        !has_alias(spec_delete_target(m, a).targets, a),
        forall|i: int|
            0 <= i < spec_delete_target(m, a).targets.len() ==> (#[trigger] spec_delete_target(
                m,
                a,
            ).targets[i]).alias != a,
        forall|i: int|
            0 <= i < spec_delete_target(m, a).results.len() ==> (#[trigger] spec_delete_target(
                m,
                a,
            ).results[i]).alias != a,
        results_of(spec_delete_target(m, a).results, a) == Seq::<CheckRec>::empty(),
        store_wf(m) ==> store_wf(spec_delete_target(m, a)),
{
    lemma_targets_without(m.targets, a);
    lemma_results_without(m.results, a);
    let md = spec_delete_target(m, a);
    lemma_results_of(md.results, a);
    let q = results_of(md.results, a);
    if q.len() > 0 {
        assert(q.contains(q[0]));
        assert(md.results.contains(q[0]) && q[0].alias == a);
        assert(false);
    }
    assert(q =~= Seq::<CheckRec>::empty());
    if store_wf(m) {
        lemma_delete_preserves_wf(m, a);
    }
}

} // verus!
