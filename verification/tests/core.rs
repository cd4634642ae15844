use timesheet::timepoint::TimePoint;
use timesheet::timesheet::format_duration;
use timesheet::timesheet::TimeSheet;
use timesheet::label::effective_text;
use timesheet::listview::ListView;

fn sheet(entries: Vec<(&str, u16)>) -> TimeSheet {
    let times: Vec<TimePoint> = entries.iter().map(|(l, t)| TimePoint::new_at(l, *t)).collect();
    TimeSheet { times, selected: 0, register: None }
}

#[test]
fn display_builds_prefix() {
    let tp = TimePoint::new_at("dev", 9 * 60 + 30);
    assert_eq!(tp.display(), "[09:30] dev");
    assert_eq!(tp.time, 570);
}

#[test]
fn display_round_trip() {
    let tp = TimePoint::new_at("dev", 570);
    let parsed = TimePoint::parse_prefix(&tp.display());
    assert_eq!(parsed, Some((570, String::from("dev"))));
}

#[test]
fn round_trip_empty_label() {
    let tp = TimePoint::new_at("", 0);
    assert_eq!(tp.display(), "[00:00] ");
    assert_eq!(TimePoint::parse_prefix(&tp.display()), Some((0, String::new())));
}

#[test]
fn parse_prefix_rejects_malformed() {
    assert_eq!(TimePoint::parse_prefix("no prefix"), None);
    assert_eq!(TimePoint::parse_prefix("[9:30] x"), None);
    assert_eq!(TimePoint::parse_prefix("[24:00] x"), None);
    assert_eq!(TimePoint::parse_prefix("[09:60] x"), None);
    assert_eq!(TimePoint::parse_prefix("[09-30] x"), None);
    assert_eq!(TimePoint::parse_prefix(""), None);
}

#[test]
fn parse_prefix_without_space() {
    assert_eq!(TimePoint::parse_prefix("[09:30]x"), Some((570, String::from("x"))));
}

#[test]
fn parse_prefix_keeps_second_space() {
    assert_eq!(
        TimePoint::parse_prefix("[09:30]  padded"),
        Some((570, String::from(" padded")))
    );
}

#[test]
fn override_extraction_example() {
    assert_eq!(effective_text(String::from("(quick note) meeting")), "quick note");
}

#[test]
fn effective_text_strips_prefix() {
    assert_eq!(effective_text(String::from("[09:30] dev")), "dev");
}

#[test]
fn effective_text_pause_synonyms() {
    assert_eq!(effective_text(String::from("lunch")), "pause");
    assert_eq!(effective_text(String::from("mittag")), "pause");
    assert_eq!(effective_text(String::from("break")), "pause");
    assert_eq!(effective_text(String::from("pause")), "pause");
    assert_eq!(effective_text(String::from("[12:00] lunch")), "pause");
}

#[test]
fn effective_text_override_then_pause() {
    assert_eq!(effective_text(String::from("(lunch) long meal")), "pause");
}

#[test]
fn effective_text_unmatched_parens() {
    assert_eq!(effective_text(String::from("a)b(c")), "a)b(c");
    assert_eq!(effective_text(String::from("plain")), "plain");
}

#[test]
fn duration_formatting_examples() {
    assert_eq!(format_duration(125), "2:05");
    assert_eq!(format_duration(301), "5:01");
    assert_eq!(format_duration(60), "1:00");
    assert_eq!(format_duration(390), "6:30");
    assert_eq!(format_duration(420), "7:00");
}

#[test]
fn duration_zero_quirk() {
    assert_eq!(format_duration(0), "0:01");
    assert_eq!(format_duration(-5), "0:01");
}

#[test]
fn from_loaded_missing_seeds_start() {
    let s = TimeSheet::from_loaded(None);
    assert_eq!(s.times.len(), 1);
    assert!(s.times[0].display().ends_with("] start"));
    assert_eq!(s.selected, 0);
    assert!(s.register.is_none());
}

#[test]
fn from_loaded_accepts_sorted() {
    let v = vec![TimePoint::new_at("a", 100), TimePoint::new_at("b", 200)];
    let s = TimeSheet::from_loaded(Some(v));
    assert_eq!(s.times.len(), 2);
    assert_eq!(s.times[0].time, 100);
    assert_eq!(s.times[1].time, 200);
}

#[test]
fn from_loaded_rejects_unsorted() {
    let v = vec![TimePoint::new_at("a", 300), TimePoint::new_at("b", 200)];
    let s = TimeSheet::from_loaded(Some(v));
    assert_eq!(s.times.len(), 1);
    assert!(s.times[0].display().ends_with("] start"));
}

#[test]
fn from_loaded_rejects_empty() {
    let s = TimeSheet::from_loaded(Some(Vec::new()));
    assert_eq!(s.times.len(), 1);
}

#[test]
fn printable_lists_display_texts() {
    let s = sheet(vec![("start", 540), ("dev", 570)]);
    assert_eq!(s.printable(), vec!["[09:00] start", "[09:30] dev"]);
}

#[test]
fn shift_rounds_down_to_five() {
    let mut s = sheet(vec![("dev", 573)]);
    s.shift_current(5);
    assert_eq!(s.times[0].time, 575);
    assert_eq!(s.times[0].time % 5, 0);
}

#[test]
fn shift_wraps_within_day() {
    let mut s = sheet(vec![("dev", 10)]);
    s.shift_current(-30);
    assert_eq!(s.times[0].time, 1420);
}

#[test]
fn shift_rounding_various_deltas() {
    for delta in [-7i64, -5, -1, 0, 1, 4, 5, 13] {
        let mut s = sheet(vec![("dev", 573)]);
        s.shift_current(delta);
        assert_eq!(s.times[0].time % 60 % 5, 0);
    }
}

#[test]
fn commit_reparses_time_and_resorts() {
    let mut s = sheet(vec![("start", 540), ("dev", 570)]);
    // Edit the first entry's prefix to a later time than the second entry.
    s.times[0].text = String::from("[10:15] start");
    s.normal_mode();
    assert_eq!(s.times.len(), 2);
    assert_eq!(s.times[0].time, 570);
    assert_eq!(s.times[1].time, 615);
    assert_eq!(s.times[1].display(), "[10:15] start");
}

#[test]
fn commit_keeps_time_on_parse_failure() {
    let mut s = sheet(vec![("dev", 570)]);
    s.times[0].text = String::from("nonsense label");
    s.normal_mode();
    assert_eq!(s.times[0].time, 570);
    assert_eq!(s.times[0].display(), "[09:30] nonsense label");
}

#[test]
fn commit_empty_label_deletes_and_clamps() {
    let mut s = sheet(vec![("a", 100), ("b", 200), ("c", 300)]);
    s.selected = 1;
    s.times[1].text = String::new();
    s.normal_mode();
    assert_eq!(s.times.len(), 2);
    assert_eq!(s.selected, 0);
    assert_eq!(s.times[0].time, 100);
    assert_eq!(s.times[1].time, 300);
    assert!(s.register.is_some());
}

#[test]
fn commit_empty_prefix_only_deletes() {
    let mut s = sheet(vec![("a", 100), ("b", 200)]);
    s.selected = 1;
    s.times[1].text = String::from("[03:20] ");
    s.normal_mode();
    assert_eq!(s.times.len(), 1);
    assert_eq!(s.selected, 0);
}

#[test]
fn commit_last_entry_refills() {
    let mut s = sheet(vec![("only", 100)]);
    s.times[0].text = String::new();
    s.normal_mode();
    assert_eq!(s.times.len(), 1);
    assert_eq!(s.selected, 0);
}

#[test]
fn move_selection_clamps() {
    let mut s = sheet(vec![("a", 100), ("b", 200)]);
    s.move_up();
    assert_eq!(s.selected, 0);
    s.move_down();
    assert_eq!(s.selected, 1);
    s.move_down();
    assert_eq!(s.selected, 1);
    s.move_up();
    assert_eq!(s.selected, 0);
}

#[test]
fn cut_and_paste() {
    let mut s = sheet(vec![("a", 100), ("b", 200), ("c", 300)]);
    s.selected = 1;
    s.remove_current();
    assert_eq!(s.times.len(), 2);
    assert_eq!(s.selected, 0);
    assert!(s.register.is_some());
    s.paste();
    assert_eq!(s.times.len(), 3);
    assert_eq!(s.selected, 1);
    assert!(s.register.is_none());
    assert_eq!(s.times[1].time, 200);
}

#[test]
fn append_and_backspace() {
    let mut s = sheet(vec![("dev", 570)]);
    s.append_to_current('x');
    assert_eq!(s.times[0].display(), "[09:30] devx");
    s.backspace();
    s.backspace();
    assert_eq!(s.times[0].display(), "[09:30] de");
}

#[test]
fn end_to_end_scenario() {
    let s = sheet(vec![
        ("start", 9 * 60),
        ("dev", 9 * 60 + 30),
        ("lunch", 12 * 60),
        ("dev", 13 * 60),
    ]);
    let now: u16 = 17 * 60;
    let buckets = s.grouped_times_at(now);
    assert_eq!(buckets.len(), 3);
    assert_eq!(buckets[0], (String::from("dev"), 390));
    assert_eq!(buckets[1], (String::from("pause"), 60));
    assert_eq!(buckets[2], (String::from("start"), 30));
    assert_eq!(s.time_by_tasks_at(now), "dev 6:30 | pause 1:00 | start 0:30");
    assert_eq!(s.sum_as_str_at(now), "7:00");
}

#[test]
fn duration_conservation() {
    let s = sheet(vec![("start", 540), ("dev", 570), ("lunch", 720), ("dev", 780)]);
    let now: u16 = 1020;
    let buckets = s.grouped_times_at(now);
    let total: i64 = buckets.iter().map(|b| b.1).sum();
    assert_eq!(total, (now - 540) as i64);
}

#[test]
fn grouping_merges_repeated_labels() {
    let s = sheet(vec![("dev", 100), ("mail", 160), ("dev", 220)]);
    let buckets = s.grouped_times_at(280);
    assert_eq!(buckets.len(), 2);
    assert_eq!(buckets[0], (String::from("dev"), 120));
    assert_eq!(buckets[1], (String::from("mail"), 60));
}

#[test]
fn grouping_sentinel_before_last_entry() {
    // The sentinel lies before the last entry: its pair gets a negative
    // duration, and the sum still telescopes.
    let s = sheet(vec![("a", 100), ("b", 200)]);
    let buckets = s.grouped_times_at(150);
    let total: i64 = buckets.iter().map(|b| b.1).sum();
    assert_eq!(total, 50);
    assert_eq!(buckets, vec![(String::from("a"), 100), (String::from("b"), -50)]);
}

#[test]
fn grouping_uses_override_labels() {
    let s = sheet(vec![("(doc) long writeup", 100), ("doc", 160)]);
    let buckets = s.grouped_times_at(220);
    assert_eq!(buckets, vec![(String::from("doc"), 120)]);
}

#[test]
fn sum_excludes_pause_only() {
    let s = sheet(vec![("work", 600), ("break", 660), ("work", 690)]);
    // 60 of work, 30 of pause, 30 more of work up to now = 720.
    assert_eq!(s.sum_as_str_at(720), "1:30");
    assert_eq!(s.time_by_tasks_at(720), "pause 0:30 | work 1:30");
}

#[test]
fn check_wf_guards() {
    let s = sheet(vec![("a", 100)]);
    assert!(s.check_wf());
    let bad = TimeSheet { times: Vec::new(), selected: 0, register: None };
    assert!(!bad.check_wf());
}

#[test]
fn from_loaded_rejects_out_of_day_time() {
    let v = vec![TimePoint { text: String::from("x"), time: 2000 }];
    let s = TimeSheet::from_loaded(Some(v));
    assert_eq!(s.times.len(), 1);
    assert!(s.times[0].display().ends_with("] start"));
}

#[test]
fn cut_overwrites_register() {
    let mut s = sheet(vec![("a", 100), ("b", 200)]);
    s.remove_current();
    let first = s.register.as_ref().map(|t| t.time);
    assert_eq!(first, Some(100));
    s.remove_current();
    let second = s.register.as_ref().map(|t| t.time);
    assert_eq!(second, Some(200));
    assert_eq!(s.times.len(), 1);
}

#[test]
fn moves_on_singleton_stay_put() {
    let mut s = sheet(vec![("a", 100)]);
    s.move_up();
    s.move_down();
    assert_eq!(s.selected, 0);
    assert_eq!(s.times.len(), 1);
}

#[test]
fn paste_with_empty_register_changes_nothing() {
    let mut s = sheet(vec![("a", 100), ("b", 200)]);
    s.paste();
    assert_eq!(s.times.len(), 2);
    assert_eq!(s.selected, 0);
    assert!(s.register.is_none());
}

#[test]
fn edit_then_commit_updates_label() {
    let mut s = sheet(vec![("de", 570)]);
    s.append_to_current('v');
    s.normal_mode();
    assert_eq!(s.times[0].display(), "[09:30] dev");
    assert_eq!(s.times[0].time, 570);
}

#[test]
fn fresh_sheet_summaries() {
    let s = sheet(vec![("start", 540)]);
    assert_eq!(s.time_by_tasks_at(550), "start 0:10");
    assert_eq!(s.sum_as_str_at(550), "0:10");
}

#[test]
fn clock_summaries_have_shape() {
    let s = sheet(vec![("start", 0)]);
    let line = s.time_by_tasks();
    assert!(line.starts_with("start "));
    let total = s.sum_as_str();
    assert!(total.contains(':'));
    let buckets = s.grouped_times();
    assert_eq!(buckets.len(), 1);
    assert_eq!(buckets[0].0, "start");
}

#[test]
fn default_entry_has_empty_label() {
    let tp = TimePoint::default();
    assert!(tp.time < 1440);
    assert!(tp.display().ends_with("] "));
}

#[test]
fn new_samples_clock_within_day() {
    let tp = TimePoint::new("late night");
    assert!(tp.time < 1440);
    assert!(tp.display().ends_with("] late night"));
}
