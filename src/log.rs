//! The append-only log: one answer per line, `<ISO date>\t<habit>\t<value>`,
//! with blank lines between days.

use vstd::prelude::*;
use vstd::string::*;

use crate::calendar::{day_text, format_day, iso_day, iso_fields, parse_day};
use crate::error::{LineError, ParseError};
use crate::text::{
    blank, chars_of, find_in, is_blank, is_digit, lemma_find_from, lines_view, run_end, string_of,
};

verus! {

/// One recorded answer: a day number, the habit's name, and the value given
/// (`"y"` for done; anything else counts as not done).
pub struct Entry {
    pub day: i32,
    pub habit: String,
    pub value: String,
}

pub struct EntryView {
    pub day: i32,
    pub habit: Seq<char>,
    pub value: Seq<char>,
}

impl View for Entry {
    type V = EntryView;

    open spec fn view(&self) -> EntryView {
        EntryView { day: self.day, habit: self.habit@, value: self.value@ }
    }
}

/// The log in memory: its entries in the order they were recorded.
pub struct EntryLog {
    pub entries: Vec<Entry>,
}

impl View for EntryLog {
    type V = Seq<EntryView>;

    open spec fn view(&self) -> Seq<EntryView> {
        self.entries@.map_values(|e: Entry| e@)
    }
}

/// What one log line holds: nothing for a blank line, else a date, a habit
/// name and a value, separated by tabs (a fourth field and beyond are ignored).
pub open spec fn entry_line(line: Seq<char>) -> Result<Option<EntryView>, LineError> {
    if is_blank(line) {
        Ok(None)
    } else {
        let a = run_end(line, '\t', 0);
        match iso_day(line.subrange(0, a)) {
            None => Err(LineError::BadDate),
            Some(d) => if a >= line.len() {
                Err(LineError::MissingField)
            } else {
                let b = run_end(line, '\t', a + 1);
                if b >= line.len() {
                    Err(LineError::MissingField)
                } else {
                    let c = run_end(line, '\t', b + 1);
                    Ok(
                        Some(
                            EntryView {
                                day: d,
                                habit: line.subrange(a + 1, b),
                                value: line.subrange(b + 1, c),
                            },
                        ),
                    )
                }
            },
        }
    }
}

/// The entries that a sequence of log lines holds, in line order, or the
/// first faulty line.
pub open spec fn log_of(lines: Seq<Seq<char>>) -> Result<Seq<EntryView>, ParseError>
    decreases lines.len(),
{
    if lines.len() == 0 {
        Ok(Seq::empty())
    } else {
        match log_of(lines.drop_last()) {
            Err(e) => Err(e),
            Ok(es) => match entry_line(lines.last()) {
                Err(kind) => Err(ParseError { line: (lines.len() - 1) as usize, kind }),
                Ok(None) => Ok(es),
                Ok(Some(e)) => Ok(es.push(e)),
            },
        }
    }
}

/// Whether `e` is an answer for habit `name` on day `day`.
pub open spec fn entry_matches(e: EntryView, name: Seq<char>, day: int) -> bool {
    e.day == day && e.habit == name
}

/// The position of the first answer for `name` on `day`.
pub open spec fn entry_index(log: Seq<EntryView>, name: Seq<char>, day: int) -> Option<int>
    decreases log.len(),
{
    if log.len() == 0 {
        None
    } else if entry_matches(log[0], name, day) {
        Some(0)
    } else {
        match entry_index(log.drop_first(), name, day) {
            Some(k) => Some(k + 1),
            None => None,
        }
    }
}

/// The first answer recorded for `name` on `day`, if any.
pub open spec fn find_entry(log: Seq<EntryView>, name: Seq<char>, day: int) -> Option<EntryView> {
    match entry_index(log, name, day) {
        Some(k) => Some(log[k]),
        None => None,
    }
}

/// `entry_index` gives the first match, and `None` only where there is none.
pub proof fn lemma_entry_index(log: Seq<EntryView>, name: Seq<char>, day: int)
    ensures
        match entry_index(log, name, day) {
            Some(k) => 0 <= k < log.len() && entry_matches(log[k], name, day) && forall|j: int|
                0 <= j < k ==> !entry_matches(#[trigger] log[j], name, day),
            None => forall|j: int| 0 <= j < log.len() ==> !entry_matches(#[trigger] log[j], name, day),
        },
    decreases log.len(),
{
    if log.len() > 0 && !entry_matches(log[0], name, day) {
        lemma_entry_index(log.drop_first(), name, day);
        assert forall|j: int| 0 < j < log.len() implies log[j] == log.drop_first()[j - 1] by {}
    }
}

/// `entry_index` is pinned down by the first match, or by the absence of one.
pub proof fn lemma_entry_index_is(log: Seq<EntryView>, name: Seq<char>, day: int, k: int)
    requires
        0 <= k <= log.len(),
        k < log.len() ==> entry_matches(log[k], name, day),
        forall|j: int| 0 <= j < k ==> !entry_matches(#[trigger] log[j], name, day),
    ensures
        entry_index(log, name, day) == (if k < log.len() { Some(k) } else { None::<int> }),
{
    lemma_entry_index(log, name, day);
    match entry_index(log, name, day) {
        Some(q) => {
            if q < k {
                assert(!entry_matches(log[q], name, day));
            }
            if k < log.len() && k < q {
                assert(!entry_matches(log[k], name, day));
            }
        },
        None => {
            if k < log.len() {
                assert(!entry_matches(log[k], name, day));
            }
        },
    }
}

/// A recorded answer stays the first one for its habit and day once more
/// answers are appended.
pub proof fn lemma_find_entry_extend(log: Seq<EntryView>, e: EntryView, name: Seq<char>, day: int)
    ensures
        find_entry(log, name, day) is Some ==> find_entry(log.push(e), name, day) == find_entry(
            log,
            name,
            day,
        ),
        find_entry(log, name, day) is None && entry_matches(e, name, day) ==> find_entry(
            log.push(e),
            name,
            day,
        ) == Some(e),
{
    lemma_entry_index(log, name, day);
    let l2 = log.push(e);
    assert forall|j: int| 0 <= j < log.len() implies l2[j] == log[j] by {}
    match entry_index(log, name, day) {
        Some(k) => {
            lemma_entry_index_is(l2, name, day, k);
        },
        None => {
            if entry_matches(e, name, day) {
                lemma_entry_index_is(l2, name, day, log.len() as int);
            }
        },
    }
}

/// A habit name or value that can stand in a log line and be read back.
pub open spec fn clean_field(s: Seq<char>) -> bool {
    forall|i: int| 0 <= i < s.len() ==> s[i] != '\t' && s[i] != '\n' && s[i] != '\r'
}

/// The log line that records `e`, where it can be written.
pub open spec fn record_text(e: EntryView) -> Option<Seq<char>> {
    match day_text(e.day as int) {
        Some(t) => if clean_field(e.habit) && clean_field(e.value) {
            Some(t + seq!['\t'] + e.habit + seq!['\t'] + e.value)
        } else {
            None
        },
        None => None,
    }
}

/// The day of the last entry of the log.
pub open spec fn last_day_of(log: Seq<EntryView>) -> Option<i32> {
    if log.len() == 0 {
        None
    } else {
        Some(log.last().day)
    }
}

/// The lines that appending `e` to `log` writes: an empty separator line
/// where the last entry is of another day, then the record of `e`.
pub open spec fn append_lines(log: Seq<EntryView>, e: EntryView) -> Option<Seq<Seq<char>>> {
    match record_text(e) {
        Some(t) => Some(
            if last_day_of(log) matches Some(d) && d != e.day {
                seq![Seq::<char>::empty(), t]
            } else {
                seq![t]
            },
        ),
        None => None,
    }
}

proof fn lemma_log_error_stays(lines: Seq<Seq<char>>, i: int)
    requires
        0 <= i <= lines.len(),
        log_of(lines.subrange(0, i)) is Err,
    ensures
        log_of(lines) == log_of(lines.subrange(0, i)),
    decreases lines.len() - i,
{
    if i < lines.len() {
        assert(lines.subrange(0, i + 1).drop_last() =~= lines.subrange(0, i));
        lemma_log_error_stays(lines, i + 1);
    } else {
        assert(lines.subrange(0, i) =~= lines);
    }
}

/// The record line of an answer reads back as that answer.
pub proof fn lemma_record_line(t: Seq<char>, h: Seq<char>, v: Seq<char>, d: i32)
    requires
        iso_day(t) == Some(d),
        clean_field(h),
        clean_field(v),
    ensures
        entry_line(t + seq!['\t'] + h + seq!['\t'] + v) == Ok::<Option<EntryView>, LineError>(
            Some(EntryView { day: d, habit: h, value: v }),
        ),
{
    let line = t + seq!['\t'] + h + seq!['\t'] + v;
    assert(iso_fields(t) is Some);
    let n = line.len() as int;
    let hl = h.len() as int;
    assert(forall|j: int| 0 <= j < 10 ==> line[j] == t[j]);
    assert(line[10] == '\t');
    assert(forall|j: int| 11 <= j < 11 + hl ==> line[j] == h[j - 11]);
    assert(line[11 + hl] == '\t');
    assert(forall|j: int| 12 + hl <= j < n ==> line[j] == v[j - 12 - hl]);
    assert(is_digit(line[0]));
    assert(!is_blank(line));
    lemma_find_from(line, '\t', 0, 10);
    lemma_find_from(line, '\t', 11, 11 + hl);
    lemma_find_from(line, '\t', 12 + hl, n);
    assert(line.subrange(0, 10) =~= t);
    assert(line.subrange(11, 11 + hl) =~= h);
    assert(line.subrange(12 + hl, n) =~= v);
}

/// Reads one log line.
pub fn parse_entry_line(line: &str) -> (r: Result<Option<Entry>, LineError>)
    ensures
        match r {
            Ok(Some(e)) => entry_line(line@) == Ok::<Option<EntryView>, LineError>(Some(e@)),
            Ok(None) => entry_line(line@) == Ok::<Option<EntryView>, LineError>(None),
            Err(k) => entry_line(line@) == Err::<Option<EntryView>, LineError>(k),
        },
{
    let cs = chars_of(line);
    if blank(&cs) {
        return Ok(None);
    }
    let a: usize = match find_in(&cs, '\t', 0) {
        Some(a) => a,
        None => cs.len(),
    };
    let day = match parse_day(&cs, 0, a) {
        None => {
            return Err(LineError::BadDate);
        },
        Some(d) => d,
    };
    if a >= cs.len() {
        return Err(LineError::MissingField);
    }
    let b: usize = match find_in(&cs, '\t', a + 1) {
        Some(b) => b,
        None => cs.len(),
    };
    if b >= cs.len() {
        return Err(LineError::MissingField);
    }
    let c: usize = match find_in(&cs, '\t', b + 1) {
        Some(c) => c,
        None => cs.len(),
    };
    let habit = string_of(&cs, a + 1, b);
    let value = string_of(&cs, b + 1, c);
    Ok(Some(Entry { day, habit, value }))
}

/// Whether `s` can stand as a field of a log line.
fn is_clean(s: &String) -> (r: bool)
    ensures
        r == clean_field(s@),
{
    let cs = chars_of(s.as_str());
    let mut i: usize = 0;
    while i < cs.len()
        invariant
            i <= cs@.len(),
            cs@ == s@,
            forall|j: int| 0 <= j < i ==> cs@[j] != '\t' && cs@[j] != '\n' && cs@[j] != '\r',
        decreases cs.len() - i,
    {
        if cs[i] == '\t' || cs[i] == '\n' || cs[i] == '\r' {
            return false;
        }
        i = i + 1;
    }
    true
}

impl EntryLog {
    /// An empty log.
    pub fn new() -> (r: EntryLog)
        ensures
            r@ == Seq::<EntryView>::empty(),
    {
        let r = EntryLog { entries: Vec::new() };
        proof {
            assert(r@ =~= Seq::<EntryView>::empty());
        }
        r
    }

    /// Reads the log, given as lines: its entries in line order, blank lines
    /// skipped, or the first faulty line.
    pub fn load(lines: &Vec<String>) -> (r: Result<EntryLog, ParseError>)
        ensures
            match r {
                Ok(log) => log_of(lines_view(lines@)) == Ok::<Seq<EntryView>, ParseError>(log@),
                Err(e) => log_of(lines_view(lines@)) == Err::<Seq<EntryView>, ParseError>(e),
            },
    {
        let ghost ls = lines_view(lines@);
        let mut log = EntryLog::new();
        let mut i: usize = 0;
        proof {
            assert(ls.subrange(0, 0) =~= Seq::<Seq<char>>::empty());
        }
        while i < lines.len()
            invariant
                i <= lines@.len(),
                ls == lines_view(lines@),
                log_of(ls.subrange(0, i as int)) == Ok::<Seq<EntryView>, ParseError>(log@),
            decreases lines.len() - i,
        {
            proof {
                assert(ls.subrange(0, i + 1).drop_last() =~= ls.subrange(0, i as int));
                assert(ls.subrange(0, i + 1).last() == lines@[i as int]@);
            }
            match parse_entry_line(lines[i].as_str()) {
                Err(kind) => {
                    proof {
                        lemma_log_error_stays(ls, i + 1);
                    }
                    return Err(ParseError { line: i, kind });
                },
                Ok(None) => {},
                Ok(Some(e)) => {
                    let ghost before = log@;
                    log.entries.push(e);
                    proof {
                        assert(log@ =~= before.push(e@));
                    }
                },
            }
            i = i + 1;
        }
        proof {
            assert(ls.subrange(0, i as int) =~= ls);
        }
        Ok(log)
    }

    /// The first entry for `habit` on `day`, in the order of the log.
    pub fn lookup(&self, habit: &String, day: i32) -> (r: Option<&Entry>)
        ensures
            match r {
                Some(e) => find_entry(self@, habit@, day as int) == Some(e@),
                None => find_entry(self@, habit@, day as int) is None,
            },
    {
        let mut i: usize = 0;
        while i < self.entries.len()
            invariant
                i <= self@.len(),
                self@.len() == self.entries@.len(),
                forall|j: int| 0 <= j < i ==> !entry_matches(#[trigger] self@[j], habit@, day as int),
            decreases self.entries.len() - i,
        {
            let e = &self.entries[i];
            if e.day == day && e.habit == *habit {
                proof {
                    lemma_entry_index_is(self@, habit@, day as int, i as int);
                }
                return Some(e);
            }
            i = i + 1;
        }
        proof {
            lemma_entry_index_is(self@, habit@, day as int, self@.len() as int);
        }
        None
    }

    /// The day of the last entry, if there is one.
    pub fn last_day(&self) -> (r: Option<i32>)
        ensures
            r == last_day_of(self@),
    {
        if self.entries.len() == 0 {
            None
        } else {
            Some(self.entries[self.entries.len() - 1].day)
        }
    }

    /// Records `entry`: gives the lines to append to the stored log, and adds
    /// the entry to this log. `None`, with nothing added, where the entry
    /// cannot be written as a line that reads back as it (a field holding a
    /// tab or a line break, or a day outside the years 0 to 9999).
    ///
    /// Reading the stored lines back after the append gives this log, and
    /// the new entry is what a lookup finds where its habit had no answer
    /// for that day before.
    pub fn append(&mut self, entry: Entry) -> (r: Option<Vec<String>>)
        ensures
            match r {
                Some(ls) => {
                    &&& append_lines(old(self)@, entry@) == Some(lines_view(ls@))
                    &&& final(self)@ == old(self)@.push(entry@)
                    &&& forall|prior: Seq<Seq<char>>|
                        log_of(prior) == Ok::<Seq<EntryView>, ParseError>(old(self)@) ==> log_of(
                            #[trigger] (prior + lines_view(ls@)),
                        ) == Ok::<Seq<EntryView>, ParseError>(final(self)@)
                    &&& find_entry(old(self)@, entry@.habit, entry.day as int) is None
                        ==> find_entry(final(self)@, entry@.habit, entry.day as int) == Some(
                        entry@,
                    )
                },
                None => append_lines(old(self)@, entry@) is None && final(self)@ == old(self)@,
            },
    {
        let text = match format_day(entry.day) {
            None => {
                return None;
            },
            Some(t) => t,
        };
        if !is_clean(&entry.habit) || !is_clean(&entry.value) {
            return None;
        }
        let mut record = string_of(&text, 0, text.len());
        proof {
            assert(text@.subrange(0, text@.len() as int) =~= text@);
            reveal_strlit("\t");
        }
        record.append("\t");
        record.append(entry.habit.as_str());
        record.append("\t");
        record.append(entry.value.as_str());
        proof {
            lemma_record_line(text@, entry.habit@, entry.value@, entry.day);
            assert(record@ =~= text@ + seq!['\t'] + entry.habit@ + seq!['\t'] + entry.value@);
        }
        let separate = match self.last_day() {
            Some(d) => d != entry.day,
            None => false,
        };
        let ghost before = self@;
        let ghost ev = entry@;
        let lines: Vec<String> = if separate {
            vec![String::new(), record]
        } else {
            vec![record]
        };
        proof {
            lemma_find_entry_extend(before, ev, ev.habit, ev.day as int);
        }
        self.entries.push(entry);
        proof {
            assert(self@ =~= before.push(ev));
            let lv = lines_view(lines@);
            if separate {
                assert(lv =~= seq![Seq::<char>::empty(), text@ + seq!['\t'] + ev.habit + seq!['\t'] + ev.value]);
            } else {
                assert(lv =~= seq![text@ + seq!['\t'] + ev.habit + seq!['\t'] + ev.value]);
            }
            assert forall|prior: Seq<Seq<char>>|
                log_of(prior) == Ok::<Seq<EntryView>, ParseError>(before) implies log_of(
                #[trigger] (prior + lv),
            ) == Ok::<Seq<EntryView>, ParseError>(before.push(ev)) by {
                let all = prior + lv;
                let rec = text@ + seq!['\t'] + ev.habit + seq!['\t'] + ev.value;
                assert(all.last() == rec);
                assert(entry_line(rec) == Ok::<Option<EntryView>, LineError>(Some(ev)));
                if separate {
                    assert(prior.push(Seq::<char>::empty()).last() == Seq::<char>::empty());
                    assert(all.drop_last() =~= prior.push(Seq::<char>::empty()));
                    assert(prior.push(Seq::<char>::empty()).drop_last() =~= prior);
                    assert(is_blank(Seq::<char>::empty()));
                    assert(log_of(prior.push(Seq::<char>::empty())) == Ok::<Seq<EntryView>, ParseError>(before));
                } else {
                    assert(all.drop_last() =~= prior);
                }
                assert(all.len() > 0);
                assert(log_of(all) == Ok::<Seq<EntryView>, ParseError>(before.push(ev)));
            }
        }
        Some(lines)
    }
}

} // verus!
