//! The status rules: what each habit's answers make of a day, which habits
//! still wait for an answer, and the day's score.

use vstd::prelude::*;
use vstd::string::*;

use crate::habit::{habits_view, Habit, HabitView};
use crate::log::{entry_index, find_entry, lemma_entry_index, EntryLog, EntryView};

verus! {

/// What a habit's answers make of one day.
#[derive(Clone, Copy, Debug, PartialEq, Eq, Structural)]
pub enum DayStatus {
    /// No answer recorded for that day.
    Unknown,
    /// A "not done" answer, and no "done" day within the cadence window.
    NotDone,
    /// A "done" answer for that day.
    Done,
    /// A "not done" answer, but a "done" day within the cadence window.
    Satisfied,
}

/// Whether an answer's value means done.
pub open spec fn is_yes(v: Seq<char>) -> bool {
    v == seq!['y']
}

/// Whether the first answer for `name` on `day` is "done".
pub open spec fn done_on(log: Seq<EntryView>, name: Seq<char>, day: int) -> bool {
    match find_entry(log, name, day) {
        Some(e) => is_yes(e.value),
        None => false,
    }
}

/// Whether `x` lies in the cadence window of `day`: the `cadence` days that end with it.
pub open spec fn in_window(cadence: int, day: int, x: int) -> bool {
    day - (cadence - 1) <= x <= day
}

/// Whether a habit with a cadence of at least one is done on some day of the
/// window that ends with `day`.
pub open spec fn satisfied(log: Seq<EntryView>, h: HabitView, day: int) -> bool {
    h.cadence_days >= 1 && exists|x: int|
        in_window(h.cadence_days as int, day, x) && #[trigger] done_on(log, h.name, x)
}

/// The status of habit `h` on `day`.
pub open spec fn status_of(log: Seq<EntryView>, h: HabitView, day: int) -> DayStatus {
    match find_entry(log, h.name, day) {
        None => DayStatus::Unknown,
        Some(e) => if is_yes(e.value) {
            DayStatus::Done
        } else if satisfied(log, h, day) {
            DayStatus::Satisfied
        } else {
            DayStatus::NotDone
        },
    }
}

/// Whether a value means done.
pub fn is_yes_value(v: &String) -> (r: bool)
    ensures
        r == is_yes(v@),
{
    let s = v.as_str();
    if s.unicode_len() != 1 {
        proof {
            assert(s@.len() != seq!['y'].len());
        }
        return false;
    }
    let c = s.get_char(0);
    proof {
        if c == 'y' {
            assert(s@ =~= seq!['y']);
        } else {
            assert(s@[0] != seq!['y'][0]);
        }
    }
    c == 'y'
}

/// Whether `habit` is done on some day of the cadence window that ends with
/// `day`; never for a cadence below one.
pub fn habit_satisfied(log: &EntryLog, habit: &Habit, day: i32) -> (r: bool)
    ensures
        r == satisfied(log@, habit@, day as int),
{
    if habit.cadence_days < 1 {
        return false;
    }
    let ghost lv = log@;
    let ghost name = habit.name@;
    let mut j: usize = 0;
    while j < log.entries.len()
        invariant
            j <= lv.len(),
            lv == log@,
            lv.len() == log.entries@.len(),
            name == habit.name@,
            habit.cadence_days >= 1,
            forall|q: int|
                0 <= q < j && lv[q].habit == name && in_window(
                    habit.cadence_days as int,
                    day as int,
                    #[trigger] lv[q].day as int,
                ) ==> !done_on(lv, name, lv[q].day as int),
        decreases log.entries.len() - j,
    {
        let e = &log.entries[j];
        let gap: i64 = day as i64 - e.day as i64;
        if e.habit == habit.name && 0 <= gap && gap < habit.cadence_days {
            let found = log.lookup(&habit.name, e.day);
            if let Some(f) = found {
                if is_yes_value(&f.value) {
                    proof {
                        assert(in_window(habit.cadence_days as int, day as int, e.day as int));
                        assert(find_entry(lv, name, e.day as int) == Some(f@));
                        assert(done_on(log@, habit@.name, e.day as int));
                        assert(satisfied(log@, habit@, day as int));
                    }
                    return true;
                }
            }
        }
        j = j + 1;
    }
    proof {
        assert forall|x: int| in_window(habit.cadence_days as int, day as int, x) implies !#[trigger] done_on(
            lv,
            name,
            x,
        ) by {
            lemma_entry_index(lv, name, x);
            if let Some(k) = entry_index(lv, name, x) {
                assert(lv[k].day == x);
            }
        }
    }
    false
}

/// The status of `habit` on `day`.
pub fn day_status(log: &EntryLog, habit: &Habit, day: i32) -> (r: DayStatus)
    ensures
        r == status_of(log@, habit@, day as int),
{
    match log.lookup(&habit.name, day) {
        None => DayStatus::Unknown,
        Some(e) => {
            if is_yes_value(&e.value) {
                DayStatus::Done
            } else if habit_satisfied(log, habit, day) {
                DayStatus::Satisfied
            } else {
                DayStatus::NotDone
            }
        },
    }
}

/// The glyph that shows a status.
pub open spec fn status_glyph(s: DayStatus) -> char {
    match s {
        DayStatus::Unknown => '•',
        DayStatus::NotDone => ' ',
        DayStatus::Done => '━',
        DayStatus::Satisfied => '─',
    }
}

/// The glyph that shows a status.
pub fn status_symbol(s: DayStatus) -> (r: char)
    ensures
        r == status_glyph(s),
{
    match s {
        DayStatus::Unknown => '•',
        DayStatus::NotDone => ' ',
        DayStatus::Done => '━',
        DayStatus::Satisfied => '─',
    }
}

/// The habits of `hs` with no answer recorded for `day`, in their order.
pub open spec fn outstanding_of(hs: Seq<HabitView>, log: Seq<EntryView>, day: int) -> Seq<HabitView>
    decreases hs.len(),
{
    if hs.len() == 0 {
        Seq::empty()
    } else {
        let rest = outstanding_of(hs.drop_last(), log, day);
        if find_entry(log, hs.last().name, day) is None {
            rest.push(hs.last())
        } else {
            rest
        }
    }
}

/// The habits, in registry order, that have no answer recorded for `day`,
/// whatever their cadence.
pub fn outstanding(habits: &Vec<Habit>, log: &EntryLog, day: i32) -> (r: Vec<Habit>)
    ensures
        habits_view(r@) == outstanding_of(habits_view(habits@), log@, day as int),
{
    let ghost hv = habits_view(habits@);
    let mut out: Vec<Habit> = Vec::new();
    let mut i: usize = 0;
    proof {
        assert(hv.subrange(0, 0) =~= Seq::<HabitView>::empty());
        assert(habits_view(out@) =~= Seq::<HabitView>::empty());
    }
    while i < habits.len()
        invariant
            i <= habits@.len(),
            hv == habits_view(habits@),
            habits_view(out@) == outstanding_of(hv.subrange(0, i as int), log@, day as int),
        decreases habits.len() - i,
    {
        proof {
            assert(hv.subrange(0, i + 1).drop_last() =~= hv.subrange(0, i as int));
            assert(hv.subrange(0, i + 1).last() == habits@[i as int]@);
        }
        let h = &habits[i];
        if log.lookup(&h.name, day).is_none() {
            let ghost before = out@;
            out.push(h.duplicate());
            proof {
                assert(habits_view(out@) =~= habits_view(before).push(h@));
            }
        }
        i = i + 1;
    }
    proof {
        assert(hv.subrange(0, i as int) =~= hv);
    }
    out
}

/// Whether a habit counts toward the score: a cadence of at least one day.
pub open spec fn scored(h: HabitView) -> bool {
    h.cadence_days >= 1
}

/// Whether a habit counts toward the score as done on `day`.
pub open spec fn scored_done(log: Seq<EntryView>, h: HabitView, day: int) -> bool {
    scored(h) && (status_of(log, h, day) == DayStatus::Done || status_of(log, h, day)
        == DayStatus::Satisfied)
}

/// How many habits of `hs` count toward the score.
pub open spec fn eligible_count(hs: Seq<HabitView>) -> nat
    decreases hs.len(),
{
    if hs.len() == 0 {
        0
    } else {
        eligible_count(hs.drop_last()) + if scored(hs.last()) {
            1nat
        } else {
            0nat
        }
    }
}

/// How many habits of `hs` count toward the score as done on `day`.
pub open spec fn done_count(hs: Seq<HabitView>, log: Seq<EntryView>, day: int) -> nat
    decreases hs.len(),
{
    if hs.len() == 0 {
        0
    } else {
        done_count(hs.drop_last(), log, day) + if scored_done(log, hs.last(), day) {
            1nat
        } else {
            0nat
        }
    }
}

/// The score of `day`: the whole percentage of scored habits that are done
/// or satisfied, rounded down; `None` where no habit is scored.
pub open spec fn score_of(hs: Seq<HabitView>, log: Seq<EntryView>, day: int) -> Option<int> {
    if eligible_count(hs) == 0 {
        None
    } else {
        Some((100 * done_count(hs, log, day) / eligible_count(hs)) as int)
    }
}

/// The score of `day` over `habits`; `None` where no habit is scored.
pub fn score(habits: &Vec<Habit>, log: &EntryLog, day: i32) -> (r: Option<u64>)
    ensures
        match r {
            Some(p) => score_of(habits_view(habits@), log@, day as int) == Some(p as int),
            None => score_of(habits_view(habits@), log@, day as int) is None,
        },
{
    let ghost hv = habits_view(habits@);
    let mut eligible: usize = 0;
    let mut done: usize = 0;
    let mut i: usize = 0;
    proof {
        assert(hv.subrange(0, 0) =~= Seq::<HabitView>::empty());
    }
    while i < habits.len()
        invariant
            i <= habits@.len(),
            hv == habits_view(habits@),
            eligible == eligible_count(hv.subrange(0, i as int)),
            done == done_count(hv.subrange(0, i as int), log@, day as int),
            done <= eligible <= i,
        decreases habits.len() - i,
    {
        proof {
            assert(hv.subrange(0, i + 1).drop_last() =~= hv.subrange(0, i as int));
            assert(hv.subrange(0, i + 1).last() == habits@[i as int]@);
        }
        let h = &habits[i];
        if h.cadence_days >= 1 {
            eligible = eligible + 1;
            let s = day_status(log, h, day);
            if s == DayStatus::Done || s == DayStatus::Satisfied {
                done = done + 1;
            }
        }
        i = i + 1;
    }
    proof {
        assert(hv.subrange(0, i as int) =~= hv);
    }
    if eligible == 0 {
        None
    } else {
        let p: u128 = 100 * (done as u128) / (eligible as u128);
        proof {
            let (d, e) = (done as int, eligible as int);
            assert(100 * d / e <= 100) by (nonlinear_arith)
                requires
                    0 <= d <= e,
                    e > 0,
            ;
        }
        Some(p as u64)
    }
}

/// The level, from 0 to 8, that a score shows as in the sparkline.
pub open spec fn spark_level(p: int) -> int {
    if 9 * p / 100 >= 8 {
        8
    } else {
        9 * p / 100
    }
}

/// The sparkline glyph of each level.
pub open spec fn spark_glyph(level: int) -> char {
    if level <= 0 {
        ' '
    } else if level == 1 {
        '▁'
    } else if level == 2 {
        '▂'
    } else if level == 3 {
        '▃'
    } else if level == 4 {
        '▄'
    } else if level == 5 {
        '▅'
    } else if level == 6 {
        '▆'
    } else if level == 7 {
        '▇'
    } else {
        '█'
    }
}

/// The glyph shown for a day that has no score.
pub open spec fn no_score_glyph() -> char {
    '?'
}

/// The sparkline glyph of a score: nine heights over 0 to 100, and a mark of
/// its own for a day without a score.
pub fn spark(score: Option<u64>) -> (r: char)
    ensures
        r == match score {
            Some(p) => spark_glyph(spark_level(p as int)),
            None => no_score_glyph(),
        },
{
    match score {
        None => '?',
        Some(p) => {
            let level: u128 = if 9 * (p as u128) / 100 >= 8 {
                8
            } else {
                9 * (p as u128) / 100
            };
            if level == 0 {
                ' '
            } else if level == 1 {
                '▁'
            } else if level == 2 {
                '▂'
            } else if level == 3 {
                '▃'
            } else if level == 4 {
                '▄'
            } else if level == 5 {
                '▅'
            } else if level == 6 {
                '▆'
            } else if level == 7 {
                '▇'
            } else {
                '█'
            }
        },
    }
}

/// One history row of `habit`: the glyph of its status on each day from
/// `first` to `last`, oldest first (empty where `first > last`).
pub fn status_row(log: &EntryLog, habit: &Habit, first: i32, last: i32) -> (r: Vec<char>)
    ensures
        r@.len() == if first <= last { last - first + 1 } else { 0 },
        forall|k: int|
            0 <= k < r@.len() ==> #[trigger] r@[k] == status_glyph(
                status_of(log@, habit@, first + k),
            ),
{
    let mut row: Vec<char> = Vec::new();
    let mut d: i64 = first as i64;
    while d <= last as i64
        invariant
            first <= d <= last + 1 || (d == first && first > last),
            row@.len() == d - first,
            forall|k: int|
                0 <= k < row@.len() ==> #[trigger] row@[k] == status_glyph(
                    status_of(log@, habit@, first + k),
                ),
        decreases last + 1 - d,
    {
        row.push(status_symbol(day_status(log, habit, d as i32)));
        d = d + 1;
    }
    row
}

/// The sparkline row of the registry: the glyph of each day's score from
/// `first` to `last`, oldest first (empty where `first > last`).
pub fn score_row(habits: &Vec<Habit>, log: &EntryLog, first: i32, last: i32) -> (r: Vec<char>)
    ensures
        r@.len() == if first <= last { last - first + 1 } else { 0 },
        forall|k: int|
            0 <= k < r@.len() ==> #[trigger] r@[k] == match score_of(
                habits_view(habits@),
                log@,
                first + k,
            ) {
                Some(p) => spark_glyph(spark_level(p)),
                None => no_score_glyph(),
            },
{
    let mut row: Vec<char> = Vec::new();
    let mut d: i64 = first as i64;
    while d <= last as i64
        invariant
            first <= d <= last + 1 || (d == first && first > last),
            row@.len() == d - first,
            forall|k: int|
                0 <= k < row@.len() ==> #[trigger] row@[k] == match score_of(
                    habits_view(habits@),
                    log@,
                    first + k,
                ) {
                    Some(p) => spark_glyph(spark_level(p)),
                    None => no_score_glyph(),
                },
        decreases last + 1 - d,
    {
        row.push(spark(score(habits, log, d as i32)));
        d = d + 1;
    }
    row
}

} // verus!
