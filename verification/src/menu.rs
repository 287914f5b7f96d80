//! The decisions of the interactive menu: which choice a reply names, what a
//! yes/no reply means, and how an update of today's habits is summed up.
use vstd::prelude::*;

verus! {

/// An entry of the main menu.
#[derive(Debug, PartialEq, Eq, Structural)]
pub enum UserChoice {
    AddHabit,
    UpdateTodaysHabits,
    ViewProgress,
    DeleteHabit,
    ViewDetailedStats,
    ExitProgram,
}

/// The menu entry that the reply `s` names: "1" to "6", in menu order.
pub open spec fn choice_of(s: Seq<char>) -> Option<UserChoice> {
    if s == seq!['1'] {
        Some(UserChoice::AddHabit)
    } else if s == seq!['2'] {
        Some(UserChoice::UpdateTodaysHabits)
    } else if s == seq!['3'] {
        Some(UserChoice::ViewProgress)
    } else if s == seq!['4'] {
        Some(UserChoice::DeleteHabit)
    } else if s == seq!['5'] {
        Some(UserChoice::ViewDetailedStats)
    } else if s == seq!['6'] {
        Some(UserChoice::ExitProgram)
    } else {
        None
    }
}

impl UserChoice {
    /// The menu entry named by `choice_number`; `Err` for any other reply.
    pub fn from_str(choice_number: &str) -> (r: Result<UserChoice, ()>)
        ensures
            match choice_of(choice_number@) {
                Some(c) => r == Ok::<UserChoice, ()>(c),
                None => r is Err,
            },
    {
        if choice_number.unicode_len() != 1 {
            return Err(());
        }
        let c = choice_number.get_char(0);
        assert(choice_number@ =~= seq![c]);
        if c == '1' {
            Ok(UserChoice::AddHabit)
        } else if c == '2' {
            Ok(UserChoice::UpdateTodaysHabits)
        } else if c == '3' {
            Ok(UserChoice::ViewProgress)
        } else if c == '4' {
            Ok(UserChoice::DeleteHabit)
        } else if c == '5' {
            Ok(UserChoice::ViewDetailedStats)
        } else if c == '6' {
            Ok(UserChoice::ExitProgram)
        } else {
            Err(())
        }
    }
}

/// What a (trimmed) reply to a yes/no question means: `Err` unless it is a
/// single character; then `Some(true)` for 'y' or 'Y', `Some(false)` for 'n'
/// or 'N', and `None` for any other character.
pub open spec fn yes_no_meaning(s: Seq<char>) -> Result<Option<bool>, ()> {
    if s.len() != 1 {
        Err(())
    } else if s[0] == 'y' || s[0] == 'Y' {
        Ok(Some(true))
    } else if s[0] == 'n' || s[0] == 'N' {
        Ok(Some(false))
    } else {
        Ok(None)
    }
}

/// Reads a reply to a yes/no question; see `yes_no_meaning`.
pub fn yes_no_reply(answer: &str) -> (r: Result<Option<bool>, ()>)
    ensures
        r == yes_no_meaning(answer@),
{
    if answer.unicode_len() != 1 {
        return Err(());
    }
    let c = answer.get_char(0);
    if c == 'y' || c == 'Y' {
        Ok(Some(true))
    } else if c == 'n' || c == 'N' {
        Ok(Some(false))
    } else {
        Ok(None)
    }
}

/// How an update of today's habits ends.
#[derive(Debug, PartialEq, Eq, Structural)]
pub enum UpdateSummary {
    /// Some habit was newly marked completed: report the progress.
    Progress,
    /// Nothing was marked, because every habit of today was already completed.
    AllAlreadyCompleted,
    /// Nothing changed.
    NoChanges,
}

/// The summary of an update of today's habits, given whether a habit was newly
/// marked, how many are completed and how many there are.
pub fn update_summary(habits_updated: bool, completed_count: usize, total_habits: usize) -> (r:
    UpdateSummary)
    ensures
        r == (if habits_updated {
            UpdateSummary::Progress
        } else if completed_count == total_habits && total_habits > 0 {
            UpdateSummary::AllAlreadyCompleted
        } else {
            UpdateSummary::NoChanges
        }),
{
    if habits_updated {
        UpdateSummary::Progress
    } else if completed_count == total_habits && total_habits > 0 {
        UpdateSummary::AllAlreadyCompleted
    } else {
        UpdateSummary::NoChanges
    }
}

} // verus!
