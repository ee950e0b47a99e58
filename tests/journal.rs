use tick::calendar::{format_day, parse_civil, parse_day, write_civil};
use tick::engine::{
    day_status, habit_satisfied, is_yes_value, outstanding, score, score_row, spark, status_row,
    status_symbol, DayStatus,
};
use tick::error::{LineError, ParseError};
use tick::habit::{load_habits, parse_habit_line, Habit};
use tick::log::{parse_entry_line, Entry, EntryLog};

const JAN_1_2024: i32 = 738886;

fn habit(cadence: i64, name: &str) -> Habit {
    Habit { cadence_days: cadence, name: name.to_string() }
}

fn entry(day: i32, name: &str, value: &str) -> Entry {
    Entry { day, habit: name.to_string(), value: value.to_string() }
}

fn log_of(entries: Vec<Entry>) -> EntryLog {
    EntryLog { entries }
}

fn lines(text: &[&str]) -> Vec<String> {
    text.iter().map(|l| l.to_string()).collect()
}

#[test]
fn empty_log_lists_every_habit_and_scores_zero() {
    let habits = vec![habit(1, "run"), habit(3, "floss")];
    let log = EntryLog::new();
    let out = outstanding(&habits, &log, JAN_1_2024);
    let names: Vec<&str> = out.iter().map(|h| h.name.as_str()).collect();
    assert_eq!(names, vec!["run", "floss"]);
    assert_eq!(score(&habits, &log, JAN_1_2024), Some(0));
}

#[test]
fn earlier_yes_in_window_satisfies() {
    let h = habit(3, "floss");
    let log = log_of(vec![entry(1, "floss", "n"), entry(2, "floss", "y"), entry(3, "floss", "n")]);
    assert_eq!(day_status(&log, &h, 3), DayStatus::Satisfied);
    assert_eq!(day_status(&log, &h, 2), DayStatus::Done);
    assert_eq!(day_status(&log, &h, 1), DayStatus::NotDone);
    assert_eq!(day_status(&log, &h, 4), DayStatus::Unknown);
}

#[test]
fn window_without_yes_is_not_done() {
    let h = habit(3, "floss");
    let log = log_of(vec![entry(1, "floss", "n"), entry(3, "floss", "n")]);
    assert_eq!(day_status(&log, &h, 3), DayStatus::NotDone);
    assert!(!habit_satisfied(&log, &h, 3));
}

#[test]
fn daily_habit_is_never_satisfied() {
    let h = habit(1, "run");
    let log = log_of(vec![entry(10, "run", "y"), entry(11, "run", "n")]);
    assert_eq!(day_status(&log, &h, 10), DayStatus::Done);
    assert_eq!(day_status(&log, &h, 11), DayStatus::NotDone);
    assert_eq!(day_status(&log, &h, 12), DayStatus::Unknown);
}

#[test]
fn yes_at_far_edge_of_window_satisfies() {
    let h = habit(4, "floss");
    let log = log_of(vec![entry(7, "floss", "y"), entry(10, "floss", "n")]);
    assert_eq!(day_status(&log, &h, 10), DayStatus::Satisfied);
    let log = log_of(vec![entry(6, "floss", "y"), entry(10, "floss", "n")]);
    assert_eq!(day_status(&log, &h, 10), DayStatus::NotDone);
}

#[test]
fn unscored_habit_is_never_satisfied() {
    let h = habit(0, "read");
    let log = log_of(vec![entry(9, "read", "y"), entry(10, "read", "n")]);
    assert!(!habit_satisfied(&log, &h, 10));
    assert_eq!(day_status(&log, &h, 10), DayStatus::NotDone);
}

#[test]
fn first_entry_of_a_day_wins() {
    let h = habit(1, "run");
    let log = log_of(vec![entry(5, "run", "n"), entry(5, "run", "y")]);
    assert_eq!(log.lookup(&"run".to_string(), 5).unwrap().value, "n");
    assert_eq!(day_status(&log, &h, 5), DayStatus::NotDone);
}

#[test]
fn value_other_than_y_is_not_done() {
    assert!(is_yes_value(&"y".to_string()));
    assert!(!is_yes_value(&"Y".to_string()));
    assert!(!is_yes_value(&"yes".to_string()));
    assert!(!is_yes_value(&"".to_string()));
    let h = habit(1, "run");
    let log = log_of(vec![entry(5, "run", "yes")]);
    assert_eq!(day_status(&log, &h, 5), DayStatus::NotDone);
}

#[test]
fn answered_habit_is_not_outstanding() {
    let habits = vec![habit(1, "run"), habit(3, "floss"), habit(0, "read")];
    let log = log_of(vec![entry(4, "floss", "y"), entry(5, "run", "n")]);
    let out = outstanding(&habits, &log, 5);
    let names: Vec<&str> = out.iter().map(|h| h.name.as_str()).collect();
    assert_eq!(names, vec!["floss", "read"]);
}

#[test]
fn score_counts_done_and_satisfied() {
    let habits = vec![habit(1, "run"), habit(3, "floss"), habit(1, "walk"), habit(0, "read")];
    let log = log_of(vec![
        entry(4, "floss", "y"),
        entry(5, "run", "y"),
        entry(5, "floss", "n"),
        entry(5, "walk", "n"),
        entry(5, "read", "y"),
    ]);
    assert_eq!(score(&habits, &log, 5), Some(66));
}

#[test]
fn score_grows_with_another_done_habit() {
    let mut habits = vec![habit(1, "run"), habit(1, "walk")];
    let log = log_of(vec![entry(5, "run", "y"), entry(5, "walk", "n"), entry(5, "swim", "y")]);
    let before = score(&habits, &log, 5).unwrap();
    habits.push(habit(2, "swim"));
    let after = score(&habits, &log, 5).unwrap();
    assert_eq!(before, 50);
    assert_eq!(after, 66);
    assert!(after >= before);
}

#[test]
fn no_scored_habit_gives_no_score() {
    let habits = vec![habit(0, "read"), habit(-2, "nap")];
    let log = log_of(vec![entry(5, "read", "y")]);
    assert_eq!(score(&habits, &log, 5), None);
    assert_eq!(score(&Vec::new(), &log, 5), None);
    assert_eq!(spark(None), '?');
}

#[test]
fn spark_buckets() {
    assert_eq!(spark(Some(0)), ' ');
    assert_eq!(spark(Some(11)), ' ');
    assert_eq!(spark(Some(12)), '▁');
    assert_eq!(spark(Some(50)), '▄');
    assert_eq!(spark(Some(88)), '▇');
    assert_eq!(spark(Some(89)), '█');
    assert_eq!(spark(Some(100)), '█');
}

#[test]
fn status_glyphs() {
    assert_eq!(status_symbol(DayStatus::Unknown), '•');
    assert_eq!(status_symbol(DayStatus::NotDone), ' ');
    assert_eq!(status_symbol(DayStatus::Done), '━');
    assert_eq!(status_symbol(DayStatus::Satisfied), '─');
}

#[test]
fn history_rows() {
    let habits = vec![habit(2, "floss")];
    let log = log_of(vec![entry(2, "floss", "y"), entry(3, "floss", "n"), entry(5, "floss", "n")]);
    let row: String = status_row(&log, &habits[0], 1, 5).into_iter().collect();
    assert_eq!(row, "•━─• ");
    let sparks: String = score_row(&habits, &log, 1, 5).into_iter().collect();
    assert_eq!(sparks, " ██  ");
    assert!(status_row(&log, &habits[0], 5, 4).is_empty());
}

#[test]
fn habit_lines() {
    let h = parse_habit_line("3 floss teeth").unwrap().unwrap();
    assert_eq!(h.cadence_days, 3);
    assert_eq!(h.name, "floss teeth");
    let h = parse_habit_line("-1 tracked only").unwrap().unwrap();
    assert_eq!(h.cadence_days, -1);
    assert!(parse_habit_line("# 1 comment").unwrap().is_none());
    assert!(parse_habit_line("").unwrap().is_none());
    assert!(parse_habit_line("  ").unwrap().is_none());
    assert_eq!(parse_habit_line("x run").err(), Some(LineError::BadCadence));
    assert_eq!(parse_habit_line("run").err(), Some(LineError::BadCadence));
    assert_eq!(parse_habit_line("5").err(), Some(LineError::MissingName));
    assert_eq!(parse_habit_line("5 ").err(), Some(LineError::MissingName));
    assert_eq!(parse_habit_line("99999999999999999999 run").err(), Some(LineError::BadCadence));
}

#[test]
fn habit_file_keeps_order_and_reports_line() {
    let hs = load_habits(&lines(&["# habits", "1 run", "", "3 floss"])).unwrap();
    let names: Vec<&str> = hs.iter().map(|h| h.name.as_str()).collect();
    assert_eq!(names, vec!["run", "floss"]);
    assert_eq!(
        load_habits(&lines(&["1 run", "two walk"])).err(),
        Some(ParseError { line: 1, kind: LineError::BadCadence })
    );
}

#[test]
fn log_lines() {
    let e = parse_entry_line("2024-01-01\trun\ty").unwrap().unwrap();
    assert_eq!(e.day, JAN_1_2024);
    assert_eq!(e.habit, "run");
    assert_eq!(e.value, "y");
    let e = parse_entry_line("2024-01-02\tfloss teeth\tn\textra").unwrap().unwrap();
    assert_eq!(e.day, JAN_1_2024 + 1);
    assert_eq!(e.habit, "floss teeth");
    assert_eq!(e.value, "n");
    assert!(parse_entry_line("").unwrap().is_none());
    assert_eq!(parse_entry_line("2024-01-01\trun").err(), Some(LineError::MissingField));
    assert_eq!(parse_entry_line("2024-01-01").err(), Some(LineError::MissingField));
    assert_eq!(parse_entry_line("2023-02-29\trun\ty").err(), Some(LineError::BadDate));
    assert_eq!(parse_entry_line("24-01-01\trun\ty").err(), Some(LineError::BadDate));
    assert_eq!(parse_entry_line("garbage").err(), Some(LineError::BadDate));
}

#[test]
fn log_file_skips_blank_lines() {
    let log = EntryLog::load(&lines(&["2024-01-01\trun\ty", "", "2024-01-02\trun\tn"])).unwrap();
    assert_eq!(log.entries.len(), 2);
    assert_eq!(log.last_day(), Some(JAN_1_2024 + 1));
    assert_eq!(
        EntryLog::load(&lines(&["2024-01-01\trun\ty", "2024-13-01\trun\ty"])).err(),
        Some(ParseError { line: 1, kind: LineError::BadDate })
    );
}

#[test]
fn dates_read_and_write() {
    let text: Vec<char> = "2024-01-01".chars().collect();
    assert_eq!(parse_day(&text, 0, 10), Some(JAN_1_2024));
    let back: String = format_day(JAN_1_2024).unwrap().into_iter().collect();
    assert_eq!(back, "2024-01-01");
    let leap: String = format_day(JAN_1_2024 + 59).unwrap().into_iter().collect();
    assert_eq!(leap, "2024-02-29");
    assert!(format_day(-400).is_none());
}

#[test]
fn appended_entry_reads_back() {
    let mut stored = lines(&["2024-01-01\trun\ty"]);
    let mut log = EntryLog::load(&stored).unwrap();
    let added = log.append(entry(JAN_1_2024 + 1, "floss", "n")).unwrap();
    assert_eq!(added, lines(&["", "2024-01-02\tfloss\tn"]));
    stored.extend(added);
    let reloaded = EntryLog::load(&stored).unwrap();
    let found = reloaded.lookup(&"floss".to_string(), JAN_1_2024 + 1).unwrap();
    assert_eq!(found.day, JAN_1_2024 + 1);
    assert_eq!(found.habit, "floss");
    assert_eq!(found.value, "n");
    assert_eq!(reloaded.entries.len(), log.entries.len());

    let same_day = log.append(entry(JAN_1_2024 + 1, "run", "y")).unwrap();
    assert_eq!(same_day, lines(&["2024-01-02\trun\ty"]));
}

#[test]
fn unwritable_entry_is_refused() {
    let mut log = EntryLog::new();
    assert!(log.append(entry(JAN_1_2024, "bad\tname", "y")).is_none());
    assert!(log.append(entry(JAN_1_2024, "run", "y\n")).is_none());
    assert!(log.append(entry(-400, "run", "y")).is_none());
    assert!(log.entries.is_empty());
}

#[test]
fn civil_text_without_calendar() {
    let text: Vec<char> = "x2024-02-30y".chars().collect();
    assert_eq!(parse_civil(&text, 1, 11), Some((2024, 2, 30)));
    assert_eq!(parse_day(&text, 1, 11), None);
    assert_eq!(parse_civil(&text, 0, 10), None);
    assert_eq!(parse_civil(&text, 1, 10), None);
    let written: String = write_civil(7, 3, 9).unwrap().into_iter().collect();
    assert_eq!(written, "0007-03-09");
    assert!(write_civil(10000, 1, 1).is_none());
    assert!(write_civil(-1, 1, 1).is_none());
    assert!(write_civil(2024, 13, 1).is_none());
    assert!(write_civil(2024, 1, 0).is_none());
}

#[test]
fn cadence_integers() {
    assert_eq!(parse_habit_line("+4 walk").unwrap().unwrap().cadence_days, 4);
    assert_eq!(parse_habit_line("-0 walk").unwrap().unwrap().cadence_days, 0);
    assert_eq!(
        parse_habit_line("-9223372036854775808 walk").unwrap().unwrap().cadence_days,
        i64::MIN
    );
    assert_eq!(
        parse_habit_line("9223372036854775807 walk").unwrap().unwrap().cadence_days,
        i64::MAX
    );
    assert_eq!(parse_habit_line("9223372036854775808 walk").err(), Some(LineError::BadCadence));
    assert_eq!(parse_habit_line("- walk").err(), Some(LineError::BadCadence));
    assert_eq!(parse_habit_line("1x walk").err(), Some(LineError::BadCadence));
}
