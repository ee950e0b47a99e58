//! The habit definitions: one habit per line, `<cadence> <name>`.

use vstd::prelude::*;

use crate::error::{LineError, ParseError};
use crate::text::{
    blank, chars_of, find_in, i64_of, is_blank, lines_view, parse_i64, run_end, string_of,
};

verus! {

/// A recurring obligation: a name and the number of days within which it
/// must be done once. A cadence below one is tracked but never scored.
pub struct Habit {
    pub cadence_days: i64,
    pub name: String,
}

pub struct HabitView {
    pub cadence_days: i64,
    pub name: Seq<char>,
}

impl View for Habit {
    type V = HabitView;

    open spec fn view(&self) -> HabitView {
        HabitView { cadence_days: self.cadence_days, name: self.name@ }
    }
}

/// The models of a sequence of habits.
pub open spec fn habits_view(hs: Seq<Habit>) -> Seq<HabitView> {
    hs.map_values(|h: Habit| h@)
}

impl Habit {
    /// A copy of this habit.
    pub fn duplicate(&self) -> (r: Habit)
        ensures
            r@ == self@,
    {
        Habit { cadence_days: self.cadence_days, name: self.name.clone() }
    }
}

/// What one definition line holds: nothing for a blank line or a `#` comment,
/// else a cadence, one space, and a non-empty name running to the end of the line.
pub open spec fn habit_line(line: Seq<char>) -> Result<Option<HabitView>, LineError> {
    if is_blank(line) || line[0] == '#' {
        Ok(None)
    } else {
        let k = run_end(line, ' ', 0);
        match i64_of(line.subrange(0, k)) {
            None => Err(LineError::BadCadence),
            Some(c) => if k + 1 >= line.len() {
                Err(LineError::MissingName)
            } else {
                Ok(Some(HabitView { cadence_days: c, name: line.subrange(k + 1, line.len() as int) }))
            },
        }
    }
}

/// The habits that a sequence of definition lines holds, in line order, or
/// the first faulty line.
pub open spec fn habits_of(lines: Seq<Seq<char>>) -> Result<Seq<HabitView>, ParseError>
    decreases lines.len(),
{
    if lines.len() == 0 {
        Ok(Seq::empty())
    } else {
        match habits_of(lines.drop_last()) {
            Err(e) => Err(e),
            Ok(hs) => match habit_line(lines.last()) {
                Err(kind) => Err(ParseError { line: (lines.len() - 1) as usize, kind }),
                Ok(None) => Ok(hs),
                Ok(Some(h)) => Ok(hs.push(h)),
            },
        }
    }
}

proof fn lemma_habits_error_stays(lines: Seq<Seq<char>>, i: int)
    requires
        0 <= i <= lines.len(),
        habits_of(lines.subrange(0, i)) is Err,
    ensures
        habits_of(lines) == habits_of(lines.subrange(0, i)),
    decreases lines.len() - i,
{
    if i < lines.len() {
        assert(lines.subrange(0, i + 1).drop_last() =~= lines.subrange(0, i));
        lemma_habits_error_stays(lines, i + 1);
    } else {
        assert(lines.subrange(0, i) =~= lines);
    }
}

/// Reads one definition line.
pub fn parse_habit_line(line: &str) -> (r: Result<Option<Habit>, LineError>)
    ensures
        match r {
            Ok(Some(h)) => habit_line(line@) == Ok::<Option<HabitView>, LineError>(Some(h@)),
            Ok(None) => habit_line(line@) == Ok::<Option<HabitView>, LineError>(None),
            Err(e) => habit_line(line@) == Err::<Option<HabitView>, LineError>(e),
        },
{
    let cs = chars_of(line);
    if blank(&cs) || cs[0] == '#' {
        return Ok(None);
    }
    let k: usize = match find_in(&cs, ' ', 0) {
        Some(k) => k,
        None => cs.len(),
    };
    match parse_i64(&cs, 0, k) {
        None => Err(LineError::BadCadence),
        Some(c) => {
            if k >= cs.len() || k + 1 >= cs.len() {
                Err(LineError::MissingName)
            } else {
                let name = string_of(&cs, k + 1, cs.len());
                Ok(Some(Habit { cadence_days: c, name }))
            }
        },
    }
}

/// Reads the habit definitions, given as lines: the habits in line order, or
/// the first line that is neither blank, a comment, nor a definition.
pub fn load_habits(lines: &Vec<String>) -> (r: Result<Vec<Habit>, ParseError>)
    ensures
        match r {
            Ok(hs) => habits_of(lines_view(lines@)) == Ok::<Seq<HabitView>, ParseError>(
                habits_view(hs@),
            ),
            Err(e) => habits_of(lines_view(lines@)) == Err::<Seq<HabitView>, ParseError>(e),
        },
{
    let ghost ls = lines_view(lines@);
    let mut out: Vec<Habit> = Vec::new();
    let mut i: usize = 0;
    proof {
        assert(ls.subrange(0, 0) =~= Seq::<Seq<char>>::empty());
        assert(habits_view(out@) =~= Seq::<HabitView>::empty());
    }
    while i < lines.len()
        invariant
            i <= lines@.len(),
            ls == lines_view(lines@),
            habits_of(ls.subrange(0, i as int)) == Ok::<Seq<HabitView>, ParseError>(
                habits_view(out@),
            ),
        decreases lines.len() - i,
    {
        proof {
            assert(ls.subrange(0, i + 1).drop_last() =~= ls.subrange(0, i as int));
            assert(ls.subrange(0, i + 1).last() == lines@[i as int]@);
        }
        match parse_habit_line(lines[i].as_str()) {
            Err(kind) => {
                proof {
                    lemma_habits_error_stays(ls, i + 1);
                }
                return Err(ParseError { line: i, kind });
            },
            Ok(None) => {},
            Ok(Some(h)) => {
                let ghost before = out@;
                out.push(h);
                proof {
                    assert(habits_view(out@) =~= habits_view(before).push(h@));
                }
            },
        }
        i = i + 1;
    }
    proof {
        assert(ls.subrange(0, i as int) =~= ls);
    }
    Ok(out)
}

} // verus!
