//! Properties of the status rules that hold for every registry and log.

use vstd::prelude::*;

use crate::engine::{
    done_count, done_on, eligible_count, in_window, is_yes, outstanding_of, satisfied, score_of,
    scored, scored_done, status_of, DayStatus,
};
use crate::habit::HabitView;
use crate::log::{find_entry, EntryView};

verus! {

/// With a cadence of one day, a habit is `Done` when its answer for the day
/// is "y", `NotDone` for any other answer, and `Unknown` without one: it is
/// never merely `Satisfied`.
pub proof fn lemma_daily_status(log: Seq<EntryView>, h: HabitView, day: int)
    requires
        h.cadence_days == 1,
    ensures
        status_of(log, h, day) == match find_entry(log, h.name, day) {
            None => DayStatus::Unknown,
            Some(e) => if is_yes(e.value) {
                DayStatus::Done
            } else {
                DayStatus::NotDone
            },
        },
        status_of(log, h, day) != DayStatus::Satisfied,
{
    if satisfied(log, h, day) {
        let x = choose|x: int| in_window(h.cadence_days as int, day, x) && #[trigger] done_on(log, h.name, x);
        assert(x == day);
    }
}

/// A habit with a cadence of `k >= 2` days, answered "y" exactly `k - 1` days
/// before `day` and "n" on `day`, is `Satisfied` on `day`.
pub proof fn lemma_window_satisfies(log: Seq<EntryView>, h: HabitView, day: int)
    requires
        h.cadence_days >= 2,
        done_on(log, h.name, day - (h.cadence_days - 1)),
        find_entry(log, h.name, day) matches Some(e) && e.value == seq!['n'],
    ensures
        status_of(log, h, day) == DayStatus::Satisfied,
{
    let x = day - (h.cadence_days - 1);
    assert(in_window(h.cadence_days as int, day, x));
    assert(satisfied(log, h, day));
    let e = find_entry(log, h.name, day)->Some_0;
    assert(e.value[0] != seq!['y'][0]);
}

/// No habit listed as outstanding for `day` has an answer recorded for that
/// day, and each comes from the registry.
pub proof fn lemma_outstanding_unanswered(hs: Seq<HabitView>, log: Seq<EntryView>, day: int)
    ensures
        forall|i: int|
            0 <= i < outstanding_of(hs, log, day).len() ==> find_entry(
                log,
                (#[trigger] outstanding_of(hs, log, day)[i]).name,
                day,
            ) is None && hs.contains(outstanding_of(hs, log, day)[i]),
    decreases hs.len(),
{
    if hs.len() > 0 {
        let rest = hs.drop_last();
        lemma_outstanding_unanswered(rest, log, day);
        let out = outstanding_of(hs, log, day);
        let ro = outstanding_of(rest, log, day);
        assert forall|i: int| 0 <= i < out.len() implies find_entry(log, (#[trigger] out[i]).name, day)
            is None && hs.contains(out[i]) by {
            if i < ro.len() {
                assert(out[i] == ro[i]);
                assert(ro[i] == ro[i]);
                let j = choose|j: int| 0 <= j < rest.len() && rest[j] == ro[i];
                assert(hs[j] == rest[j]);
            } else {
                assert(out[i] == hs.last());
                assert(hs[hs.len() - 1] == hs.last());
            }
        }
    }
}

proof fn lemma_counts_bounded(hs: Seq<HabitView>, log: Seq<EntryView>, day: int)
    ensures
        done_count(hs, log, day) <= eligible_count(hs),
    decreases hs.len(),
{
    if hs.len() > 0 {
        lemma_counts_bounded(hs.drop_last(), log, day);
    }
}

/// Adding to the registry one more scored habit that is `Done` or `Satisfied`
/// on `day` never lowers that day's score, and gives the day a score.
pub proof fn lemma_score_monotonic(hs: Seq<HabitView>, log: Seq<EntryView>, h: HabitView, day: int)
    requires
        h.cadence_days >= 1,
        status_of(log, h, day) == DayStatus::Done || status_of(log, h, day) == DayStatus::Satisfied,
    ensures
        score_of(hs.push(h), log, day) is Some,
        score_of(hs, log, day) matches Some(p) ==> p <= score_of(hs.push(h), log, day)->Some_0,
{
    let hs2 = hs.push(h);
    assert(hs2.drop_last() =~= hs);
    assert(scored(h) && scored_done(log, h, day));
    lemma_counts_bounded(hs, log, day);
    let d = done_count(hs, log, day) as int;
    let e = eligible_count(hs) as int;
    assert(done_count(hs2, log, day) == d + 1);
    assert(eligible_count(hs2) == e + 1);
    if e > 0 {
        assert(100 * d / e <= 100 * (d + 1) / (e + 1)) by (nonlinear_arith)
            requires
                0 <= d <= e,
                e > 0,
        {
            let q = 100 * d / e;
            assert(q * e <= 100 * d);
            assert(q <= 100);
            assert(q * (e + 1) <= 100 * (d + 1));
        }
    }
}

} // verus!
