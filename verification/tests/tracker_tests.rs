use habit_tracker::tracker::{calculate_current_streak, HabitTracker};

fn tracker_with(habits: &[&str], dates: &[&str]) -> HabitTracker {
    let mut t = HabitTracker::default();
    for h in habits {
        t.add_new_habit(h.to_string()).unwrap();
    }
    for d in dates {
        t.create_new_daily_record(d.to_string());
    }
    t
}

fn names(t: &HabitTracker) -> Vec<String> {
    t.tracked_habits.clone()
}

fn record_names(t: &HabitTracker, r: usize) -> Vec<(String, bool)> {
    t.daily_habit_records[r]
        .habit_completions
        .iter()
        .map(|c| (c.habit_name.clone(), c.is_completed))
        .collect()
}

#[test]
fn default_tracker_is_empty() {
    let t = HabitTracker::default();
    assert!(t.tracked_habits.is_empty());
    assert!(t.daily_habit_records.is_empty());
    assert_eq!(t.get_most_recent_date(), None);
    assert!(t.needs_new_daily_record("2024-01-01"));
}

#[test]
fn add_habit_trims_the_name() {
    let mut t = HabitTracker::default();
    assert_eq!(t.add_new_habit("  Read a book \t".to_string()), Ok(()));
    assert_eq!(names(&t), vec!["Read a book".to_string()]);
}

#[test]
fn add_habit_refuses_empty_names() {
    let mut t = HabitTracker::default();
    assert_eq!(
        t.add_new_habit("".to_string()),
        Err("Habit name cannot be empty or just whitespace".to_string())
    );
    assert_eq!(
        t.add_new_habit(" \t\n\u{3000} ".to_string()),
        Err("Habit name cannot be empty or just whitespace".to_string())
    );
    assert!(t.tracked_habits.is_empty());
}

#[test]
fn add_habit_refuses_names_over_100_bytes() {
    let mut t = HabitTracker::default();
    let long = "x".repeat(101);
    assert_eq!(
        t.add_new_habit(long),
        Err("Habit name is too long (maximum 100 characters)".to_string())
    );
    assert_eq!(t.add_new_habit(format!("  {}  ", "x".repeat(100))), Ok(()));
    // 51 characters of two bytes each: 102 bytes.
    assert_eq!(
        t.add_new_habit("é".repeat(51)),
        Err("Habit name is too long (maximum 100 characters)".to_string())
    );
    assert_eq!(t.add_new_habit("é".repeat(50)), Ok(()));
    assert_eq!(t.tracked_habits.len(), 2);
}

#[test]
fn add_habit_refuses_duplicates_ignoring_case() {
    let mut t = tracker_with(&["Read"], &["2024-01-01"]);
    assert_eq!(
        t.add_new_habit("  READ ".to_string()),
        Err("A habit similar to 'READ' already exists".to_string())
    );
    assert_eq!(
        t.add_new_habit("read".to_string()),
        Err("A habit similar to 'read' already exists".to_string())
    );
    assert_eq!(names(&t), vec!["Read".to_string()]);
    assert_eq!(record_names(&t, 0), vec![("Read".to_string(), false)]);
}

#[test]
fn add_habit_extends_every_record() {
    let mut t = tracker_with(&["Read"], &["2024-01-01", "2024-01-02"]);
    assert_eq!(t.add_new_habit("Run".to_string()), Ok(()));
    for r in 0..2 {
        assert_eq!(
            record_names(&t, r),
            vec![("Read".to_string(), false), ("Run".to_string(), false)]
        );
    }
}

#[test]
fn new_record_lists_every_habit_not_completed() {
    let mut t = tracker_with(&["Read", "Run"], &[]);
    assert!(t.needs_new_daily_record("2024-03-05"));
    t.create_new_daily_record("2024-03-05".to_string());
    assert_eq!(t.get_most_recent_date(), Some("2024-03-05"));
    assert!(!t.needs_new_daily_record("2024-03-05"));
    assert!(t.needs_new_daily_record("2024-03-06"));
    assert_eq!(
        record_names(&t, 0),
        vec![("Read".to_string(), false), ("Run".to_string(), false)]
    );
}

#[test]
fn remove_habit_ignores_case_and_drops_entries() {
    let mut t = tracker_with(&["Read", "Run"], &["d1", "d2"]);
    assert!(t.remove_habit("READ"));
    assert_eq!(names(&t), vec!["Run".to_string()]);
    for r in 0..2 {
        assert_eq!(record_names(&t, r), vec![("Run".to_string(), false)]);
    }
}

#[test]
fn remove_unknown_habit_changes_nothing() {
    let mut t = tracker_with(&["Read"], &["d1"]);
    assert!(!t.remove_habit("Write"));
    assert!(!t.remove_habit(" Read"));
    assert_eq!(names(&t), vec!["Read".to_string()]);
    assert_eq!(record_names(&t, 0), vec![("Read".to_string(), false)]);
}

#[test]
fn remove_undoes_add() {
    let mut t = tracker_with(&["Read", "Run"], &["d1", "d2"]);
    t.mark_latest_completed("run");
    let before_names = names(&t);
    let before_records: Vec<Vec<(String, bool)>> = (0..2).map(|r| record_names(&t, r)).collect();
    assert_eq!(t.add_new_habit("  Swim ".to_string()), Ok(()));
    assert!(t.remove_habit("sWIM"));
    assert_eq!(names(&t), before_names);
    let after_records: Vec<Vec<(String, bool)>> = (0..2).map(|r| record_names(&t, r)).collect();
    assert_eq!(after_records, before_records);
}

#[test]
fn statistics_count_completed_days() {
    let mut t = tracker_with(&["Read", "Run"], &["d1"]);
    assert!(t.mark_latest_completed("read"));
    t.create_new_daily_record("d2".to_string());
    t.create_new_daily_record("d3".to_string());
    assert!(t.mark_latest_completed("READ"));
    assert!(t.mark_latest_completed("Run"));
    assert_eq!(t.calculate_habit_statistics("Read"), (2, 3));
    assert_eq!(t.calculate_habit_statistics("rEaD"), (2, 3));
    assert_eq!(t.calculate_habit_statistics("Run"), (1, 3));
    assert_eq!(t.calculate_habit_statistics("Swim"), (0, 3));
    assert_eq!(HabitTracker::default().calculate_habit_statistics("Read"), (0, 0));
}

#[test]
fn streak_counts_recent_completed_days() {
    let mut t = tracker_with(&["Read"], &["d1"]);
    t.mark_latest_completed("Read");
    t.create_new_daily_record("d2".to_string());
    assert_eq!(calculate_current_streak(&t, "Read"), 0);
    t.create_new_daily_record("d3".to_string());
    t.mark_latest_completed("Read");
    t.create_new_daily_record("d4".to_string());
    t.mark_latest_completed("read");
    assert_eq!(calculate_current_streak(&t, "Read"), 2);
    assert_eq!(calculate_current_streak(&t, "Other"), 0);
    let (completed, _) = t.calculate_habit_statistics("Read");
    assert!(calculate_current_streak(&t, "Read") <= completed);
    assert_eq!(completed, 3);
}

#[test]
fn new_day_starts_with_no_streak() {
    let mut t = tracker_with(&["Read"], &["d1"]);
    t.mark_latest_completed("Read");
    assert_eq!(calculate_current_streak(&t, "Read"), 1);
    t.create_new_daily_record("d2".to_string());
    assert_eq!(calculate_current_streak(&t, "Read"), 0);
    assert_eq!(t.calculate_habit_statistics("Read"), (1, 2));
}

#[test]
fn mark_latest_completed_needs_a_record_and_a_match() {
    let mut t = tracker_with(&["Read"], &[]);
    assert!(!t.mark_latest_completed("Read"));
    t.create_new_daily_record("d1".to_string());
    assert!(!t.mark_latest_completed("Run"));
    assert!(t.mark_latest_completed("READ"));
    assert_eq!(record_names(&t, 0), vec![("Read".to_string(), true)]);
}

#[test]
fn mark_latest_completed_exact_compares_exactly() {
    let mut t = tracker_with(&["Read", "Run"], &["d1", "d2"]);
    assert!(!t.mark_latest_completed_exact(&"run".to_string()));
    assert!(t.mark_latest_completed_exact(&"Run".to_string()));
    assert_eq!(
        record_names(&t, 1),
        vec![("Read".to_string(), false), ("Run".to_string(), true)]
    );
    assert_eq!(
        record_names(&t, 0),
        vec![("Read".to_string(), false), ("Run".to_string(), false)]
    );
}

#[test]
fn mark_latest_completion_at_checks_the_index() {
    let mut t = tracker_with(&["Read", "Run"], &["d1"]);
    assert!(!t.mark_latest_completion_at(2));
    assert!(t.mark_latest_completion_at(1));
    assert_eq!(
        record_names(&t, 0),
        vec![("Read".to_string(), false), ("Run".to_string(), true)]
    );
    assert!(!HabitTracker::default().mark_latest_completion_at(0));
}

#[test]
fn records_follow_tracked_habits() {
    let mut t = tracker_with(&["Read", "Run", "Swim"], &["d1"]);
    t.create_new_daily_record("d2".to_string());
    assert!(t.remove_habit("run"));
    assert_eq!(t.add_new_habit("Walk".to_string()), Ok(()));
    t.mark_latest_completed("walk");
    t.create_new_daily_record("d3".to_string());
    for r in 0..3 {
        let listed: Vec<String> = record_names(&t, r).into_iter().map(|(n, _)| n).collect();
        assert_eq!(listed, names(&t));
    }
}

#[test]
fn most_recent_record_can_be_changed_in_place() {
    let mut t = tracker_with(&["Read"], &["d1", "d2"]);
    match t.get_most_recent_record_mut() {
        Some(record) => {
            assert_eq!(record.record_date, "d2");
            record.habit_completions[0].is_completed = true;
        }
        None => panic!("expected a record"),
    }
    assert_eq!(record_names(&t, 1), vec![("Read".to_string(), true)]);
    assert_eq!(record_names(&t, 0), vec![("Read".to_string(), false)]);
    assert!(HabitTracker::default().get_most_recent_record_mut().is_none());
}
