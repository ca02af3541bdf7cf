use vstd::prelude::*;

use crate::model::{spec_append_result, StoreModel, FAILURE_SENTINEL};
use crate::store::Store;
use crate::timeslot::{slot_of, truncate_minute};

verus! {

/// Seconds past the minute boundary at which a cycle wakes, so probes
/// never race the bucket-truncation boundary the aggregator uses.
pub const WAKE_OFFSET_SECONDS: i64 = 2;

/// What one probe produced for one target.
pub struct ProbeOutcome {
    pub target_alias: String,
    pub status: i16,
}

/// The status the prober reports: the HTTP status code when the
/// request was answered, and the out-of-band failure sentinel when the
/// transport failed (timeout, DNS failure, connection refused) — a
/// transport failure is captured here, never raised, so one
/// unreachable target cannot abort the cycle for the rest.
pub fn probe_status(http_status: Option<u16>) -> (s: i16)
    ensures
        match http_status {
            Some(c) => (c <= 999 ==> s == c as i16) && (c > 999 ==> s == FAILURE_SENTINEL),
            None => s == FAILURE_SENTINEL,
        },
        0 <= s,
{
    match http_status {
        Some(c) => {
            if c <= 999 {
                c as i16
            } else {
                FAILURE_SENTINEL
            }
        },
        None => FAILURE_SENTINEL,
    }
}

/// The scheduler's alignment policy: the next wake is the wall-clock
/// minute boundary after `now`, plus the fixed offset.  It is computed
/// from the wall clock alone — never from the previous wake — so a
/// cycle that overruns the cadence does not make wakes pile up.
pub fn next_wake(now: i64) -> (r: i64)
    requires
        0 <= now,
        now + 62 <= i64::MAX,
    ensures
        r == slot_of(now as int) + 60 + WAKE_OFFSET_SECONDS,
        now < r <= now + 62,
        r % 60 == WAKE_OFFSET_SECONDS as int,
{
    let m = truncate_minute(now);
    let r = m + 60 + WAKE_OFFSET_SECONDS;
    proof {
        vstd::arithmetic::div_mod::lemma_add_mod_noop(m as int, 62, 60);
    }
    r
}

/// The store after recording a whole cycle's outcomes in order, each
/// at the same observation time.
pub open spec fn spec_record_cycle(m: StoreModel, outs: Seq<(Seq<char>, int)>, at: int) -> StoreModel
    decreases outs.len(),
{
    if outs.len() == 0 {
        m
    } else {
        spec_append_result(
            spec_record_cycle(m, outs.drop_last(), at),
            outs.last().0,
            at,
            outs.last().1,
        )
    }
}

/// The spec image of a cycle's outcomes.
pub open spec fn outcomes_view(outs: Seq<ProbeOutcome>) -> Seq<(Seq<char>, int)> {
    outs.map_values(|o: ProbeOutcome| (o.target_alias@, o.status as int))
}

/// Record one cycle: every probe outcome is handed to the recorder in
/// turn.  Each insert is idempotent per minute slot and silently
/// dropped for a since-deleted target, so no single target's recording
/// can stop the others.
pub fn record_cycle(store: &mut Store, outcomes: &Vec<ProbeOutcome>, observed_at: i64)
    requires
        0 <= observed_at,
    ensures
        final(store)@ == spec_record_cycle(
            old(store)@,
            outcomes_view(outcomes@),
            observed_at as int,
        ),
{
    let ghost m0 = store@;
    let ghost ov = outcomes_view(outcomes@);
    let mut i: usize = 0;
    while i < outcomes.len()
        invariant
            i <= outcomes@.len(),
            0 <= observed_at,
            ov == outcomes_view(outcomes@),
            store@ == spec_record_cycle(m0, ov.take(i as int), observed_at as int),
        decreases outcomes@.len() - i,
    {
        let o = &outcomes[i];
        store.append_check_result(&o.target_alias, observed_at, o.status);
        proof {
            assert(ov.take(i + 1).drop_last() =~= ov.take(i as int));
            assert(ov.take(i + 1).last() == ov[i as int]);
            assert(ov[i as int] == (o.target_alias@, o.status as int));
        }
        i += 1;
    }
    proof {
        assert(ov.take(outcomes@.len() as int) =~= ov);
    }
}

} // verus!
