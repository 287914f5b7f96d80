use habit_tracker::menu::{update_summary, yes_no_reply, UpdateSummary, UserChoice};

#[test]
fn menu_choices() {
    assert_eq!(UserChoice::from_str("1"), Ok(UserChoice::AddHabit));
    assert_eq!(UserChoice::from_str("2"), Ok(UserChoice::UpdateTodaysHabits));
    assert_eq!(UserChoice::from_str("3"), Ok(UserChoice::ViewProgress));
    assert_eq!(UserChoice::from_str("4"), Ok(UserChoice::DeleteHabit));
    assert_eq!(UserChoice::from_str("5"), Ok(UserChoice::ViewDetailedStats));
    assert_eq!(UserChoice::from_str("6"), Ok(UserChoice::ExitProgram));
    assert_eq!(UserChoice::from_str("0"), Err(()));
    assert_eq!(UserChoice::from_str("7"), Err(()));
    assert_eq!(UserChoice::from_str(""), Err(()));
    assert_eq!(UserChoice::from_str("12"), Err(()));
    assert_eq!(UserChoice::from_str("a"), Err(()));
}

#[test]
fn yes_no_replies() {
    assert_eq!(yes_no_reply("y"), Ok(Some(true)));
    assert_eq!(yes_no_reply("Y"), Ok(Some(true)));
    assert_eq!(yes_no_reply("n"), Ok(Some(false)));
    assert_eq!(yes_no_reply("N"), Ok(Some(false)));
    assert_eq!(yes_no_reply("x"), Ok(None));
    assert_eq!(yes_no_reply("é"), Ok(None));
    assert_eq!(yes_no_reply(""), Err(()));
    assert_eq!(yes_no_reply("yes"), Err(()));
}

#[test]
fn update_summaries() {
    assert_eq!(update_summary(true, 2, 3), UpdateSummary::Progress);
    assert_eq!(update_summary(true, 3, 3), UpdateSummary::Progress);
    assert_eq!(update_summary(false, 3, 3), UpdateSummary::AllAlreadyCompleted);
    assert_eq!(update_summary(false, 0, 0), UpdateSummary::NoChanges);
    assert_eq!(update_summary(false, 1, 3), UpdateSummary::NoChanges);
}
