//! The habit tracker: the habits being tracked and one record per day.
use vstd::prelude::*;
use vstd::utf8::encode_utf8;

use crate::text::{lowercase, to_lowercase, trim, trim_seq};

verus! {

/// Whether one habit was completed on one day.
pub struct HabitCompletion {
    pub habit_name: String,
    pub is_completed: bool,
}

/// The completions of every tracked habit on one day.
pub struct DailyRecord {
    pub record_date: String,
    pub habit_completions: Vec<HabitCompletion>,
}

/// All daily records, oldest first, and the names of the tracked habits.
pub struct HabitTracker {
    pub daily_habit_records: Vec<DailyRecord>,
    pub tracked_habits: Vec<String>,
}

/// The value of a `HabitCompletion`.
#[verifier::ext_equal]
pub struct CompletionView {
    pub name: Seq<char>,
    pub completed: bool,
}

/// The value of a `DailyRecord`.
#[verifier::ext_equal]
pub struct RecordView {
    pub date: Seq<char>,
    pub completions: Seq<CompletionView>,
}

/// The value of a `HabitTracker`.
#[verifier::ext_equal]
pub struct TrackerView {
    pub records: Seq<RecordView>,
    pub habits: Seq<Seq<char>>,
}

impl View for HabitCompletion {
    type V = CompletionView;

    open spec fn view(&self) -> CompletionView {
        CompletionView { name: self.habit_name@, completed: self.is_completed }
    }
}

impl View for DailyRecord {
    type V = RecordView;

    open spec fn view(&self) -> RecordView {
        RecordView {
            date: self.record_date@,
            completions: self.habit_completions@.map_values(|c: HabitCompletion| c@),
        }
    }
}

impl View for HabitTracker {
    type V = TrackerView;

    open spec fn view(&self) -> TrackerView {
        TrackerView {
            records: self.daily_habit_records@.map_values(|r: DailyRecord| r@),
            habits: self.tracked_habits@.map_values(|h: String| h@),
        }
    }
}

// ---------------------------------------------------------------------------
// Names and lookup
// ---------------------------------------------------------------------------

/// The habit names of a list of completions.
pub open spec fn names_of(cs: Seq<CompletionView>) -> Seq<Seq<char>> {
    cs.map_values(|c: CompletionView| c.name)
}

/// Holds of a name that is the same habit as `key` (a lowercased name).
pub open spec fn has_key(key: Seq<char>) -> spec_fn(Seq<char>) -> bool {
    |n: Seq<char>| lowercase(n) == key
}

/// Holds of exactly the name `name`.
pub open spec fn is_name(name: Seq<char>) -> spec_fn(Seq<char>) -> bool {
    |n: Seq<char>| n == name
}

/// Index of the first name that satisfies `p`; the length of `names` if none does.
pub open spec fn first_index(names: Seq<Seq<char>>, p: spec_fn(Seq<char>) -> bool) -> int
    decreases names.len(),
{
    if names.len() == 0 {
        0
    } else if p(names[0]) {
        0
    } else {
        1 + first_index(names.drop_first(), p)
    }
}

/// No two habit names are the same habit.
pub open spec fn distinct_keys(habits: Seq<Seq<char>>) -> bool {
    forall|i: int, j: int|
        0 <= i < j < habits.len() ==> lowercase(#[trigger] habits[i]) != lowercase(
            #[trigger] habits[j],
        )
}

/// The tracker's invariant: the tracked habits are distinct (ignoring case), and
/// every daily record lists exactly the tracked habits, in the same order.
pub open spec fn consistent(t: TrackerView) -> bool {
    &&& distinct_keys(t.habits)
    &&& forall|r: int| 0 <= r < t.records.len() ==> names_of(#[trigger] t.records[r].completions) == t.habits
}

// ---------------------------------------------------------------------------
// Operations on the model
// ---------------------------------------------------------------------------

/// A record for `date` in which no tracked habit is completed yet.
pub open spec fn fresh_record(habits: Seq<Seq<char>>, date: Seq<char>) -> RecordView {
    RecordView {
        date: date,
        completions: habits.map_values(|h: Seq<char>| CompletionView { name: h, completed: false }),
    }
}

/// `t` with a fresh record for `date` appended.
pub open spec fn with_new_record(t: TrackerView, date: Seq<char>) -> TrackerView {
    TrackerView { records: t.records.push(fresh_record(t.habits, date)), habits: t.habits }
}

/// Whether a record for `today` still has to be created: there is no record,
/// or the most recent one is for another date.
pub open spec fn needs_new_record(t: TrackerView, today: Seq<char>) -> bool {
    t.records.len() == 0 || t.records.last().date != today
}

/// `r` with a not yet completed entry for `name` appended.
pub open spec fn with_completion(r: RecordView, name: Seq<char>) -> RecordView {
    RecordView {
        date: r.date,
        completions: r.completions.push(CompletionView { name: name, completed: false }),
    }
}

/// `t` with the habit `name` tracked, and an entry for it in every record.
pub open spec fn with_habit(t: TrackerView, name: Seq<char>) -> TrackerView {
    TrackerView {
        records: t.records.map_values(|r: RecordView| with_completion(r, name)),
        habits: t.habits.push(name),
    }
}

/// Message for a name that is empty once trimmed.
pub open spec fn empty_name_message() -> Seq<char> {
    "Habit name cannot be empty or just whitespace"@
}

/// Message for a name longer than 100 bytes once trimmed.
pub open spec fn long_name_message() -> Seq<char> {
    "Habit name is too long (maximum 100 characters)"@
}

/// Message for a name that is already tracked (ignoring case).
pub open spec fn duplicate_name_message(name: Seq<char>) -> Seq<char> {
    "A habit similar to '"@ + name + "' already exists"@
}

/// Why `add_new_habit` refuses `name`, as its message; `None` where it accepts it.
pub open spec fn add_refusal(t: TrackerView, name: Seq<char>) -> Option<Seq<char>> {
    let trimmed = trim_seq(name);
    if trimmed.len() == 0 {
        Some(empty_name_message())
    } else if encode_utf8(trimmed).len() > 100 {
        Some(long_name_message())
    } else if first_index(t.habits, has_key(lowercase(trimmed))) < t.habits.len() {
        Some(duplicate_name_message(trimmed))
    } else {
        None
    }
}

/// `cs` without the entries that are the habit `key`.
pub open spec fn without_key(cs: Seq<CompletionView>, key: Seq<char>) -> Seq<CompletionView>
    decreases cs.len(),
{
    if cs.len() == 0 {
        cs
    } else if lowercase(cs.last().name) == key {
        without_key(cs.drop_last(), key)
    } else {
        without_key(cs.drop_last(), key).push(cs.last())
    }
}

/// `r` without the entries that are the habit `key`.
pub open spec fn record_without(r: RecordView, key: Seq<char>) -> RecordView {
    RecordView { date: r.date, completions: without_key(r.completions, key) }
}

/// Whether `remove_habit` finds a habit that is the same as `key`.
pub open spec fn tracks_key(t: TrackerView, key: Seq<char>) -> bool {
    first_index(t.habits, has_key(key)) < t.habits.len()
}

/// `t` without the first tracked habit that is `key`, and without every record
/// entry that is `key`.
pub open spec fn without_habit(t: TrackerView, key: Seq<char>) -> TrackerView {
    TrackerView {
        records: t.records.map_values(|r: RecordView| record_without(r, key)),
        habits: t.habits.remove(first_index(t.habits, has_key(key))),
    }
}

/// Index, in the most recent record, of the first entry whose name satisfies `p`.
pub open spec fn latest_match(t: TrackerView, p: spec_fn(Seq<char>) -> bool) -> int {
    first_index(names_of(t.records.last().completions), p)
}

/// Whether the most recent record has an entry whose name satisfies `p`.
pub open spec fn can_mark(t: TrackerView, p: spec_fn(Seq<char>) -> bool) -> bool {
    t.records.len() > 0 && latest_match(t, p) < t.records.last().completions.len()
}

/// `t` with entry `i` of the most recent record marked completed.
pub open spec fn mark_latest(t: TrackerView, i: int) -> TrackerView {
    let last = t.records.last();
    TrackerView {
        records: t.records.update(
            t.records.len() - 1,
            RecordView {
                date: last.date,
                completions: last.completions.update(
                    i,
                    CompletionView { name: last.completions[i].name, completed: true },
                ),
            },
        ),
        habits: t.habits,
    }
}

// ---------------------------------------------------------------------------
// Statistics on the model
// ---------------------------------------------------------------------------

/// Whether the habit `key` is completed in `r`: its first entry there is completed.
pub open spec fn completed_in(r: RecordView, key: Seq<char>) -> bool {
    let i = first_index(names_of(r.completions), has_key(key));
    i < r.completions.len() && r.completions[i].completed
}

/// Number of records in which the habit `key` is completed.
pub open spec fn count_completed(records: Seq<RecordView>, key: Seq<char>) -> nat
    decreases records.len(),
{
    if records.len() == 0 {
        0
    } else {
        count_completed(records.drop_last(), key) + if completed_in(records.last(), key) {
            1nat
        } else {
            0nat
        }
    }
}

/// Number of most recent records, in a row, in which the habit `key` is completed.
pub open spec fn streak(records: Seq<RecordView>, key: Seq<char>) -> nat
    decreases records.len(),
{
    if records.len() > 0 && completed_in(records.last(), key) {
        1 + streak(records.drop_last(), key)
    } else {
        0
    }
}

// ---------------------------------------------------------------------------
// Lemmas
// ---------------------------------------------------------------------------

/// What `first_index` finds.
pub proof fn lemma_first_index(names: Seq<Seq<char>>, p: spec_fn(Seq<char>) -> bool)
    ensures
        0 <= first_index(names, p) <= names.len(),
        forall|j: int| 0 <= j < first_index(names, p) ==> !p(#[trigger] names[j]),
        first_index(names, p) < names.len() ==> p(names[first_index(names, p)]),
    decreases names.len(),
{
    if names.len() > 0 && !p(names[0]) {
        let rest = names.drop_first();
        lemma_first_index(rest, p);
        assert forall|j: int| 0 <= j < first_index(names, p) implies !p(#[trigger] names[j]) by {
            if j > 0 {
                assert(names[j] == rest[j - 1]);
            }
        }
    }
}

/// `first_index` is the one index before which nothing satisfies `p` and at which,
/// unless it is the end, something does.
pub proof fn lemma_first_index_is(names: Seq<Seq<char>>, p: spec_fn(Seq<char>) -> bool, i: int)
    requires
        0 <= i <= names.len(),
        forall|j: int| 0 <= j < i ==> !p(#[trigger] names[j]),
        i < names.len() ==> p(names[i]),
    ensures
        first_index(names, p) == i,
{
    lemma_first_index(names, p);
}

/// Appending a fresh record keeps the tracker consistent.
pub proof fn lemma_new_record_keeps_consistent(t: TrackerView, date: Seq<char>)
    requires
        consistent(t),
    ensures
        consistent(with_new_record(t, date)),
{
    let t2 = with_new_record(t, date);
    assert(names_of(fresh_record(t.habits, date).completions) =~= t.habits);
    assert forall|r: int| 0 <= r < t2.records.len() implies names_of(
        #[trigger] t2.records[r].completions,
    ) == t2.habits by {
        if r < t.records.len() {
            assert(t2.records[r] == t.records[r]);
        }
    }
}

/// A string takes at least one and at most four bytes per character in UTF-8.
pub proof fn lemma_byte_len_bounds(s: Seq<char>)
    ensures
        s.len() <= encode_utf8(s).len() <= 4 * s.len(),
    decreases s.len(),
{
    if s.len() > 0 {
        lemma_byte_len_bounds(s.drop_first());
    }
}

/// Tracking a habit that is not tracked yet keeps the tracker consistent.
pub proof fn lemma_add_keeps_consistent(t: TrackerView, name: Seq<char>)
    requires
        consistent(t),
        !tracks_key(t, lowercase(name)),
    ensures
        consistent(with_habit(t, name)),
{
    let t2 = with_habit(t, name);
    lemma_first_index(t.habits, has_key(lowercase(name)));
    assert forall|i: int, j: int| 0 <= i < j < t2.habits.len() implies lowercase(
        #[trigger] t2.habits[i],
    ) != lowercase(#[trigger] t2.habits[j]) by {
        if j == t.habits.len() {
            assert(!has_key(lowercase(name))(t.habits[i]));
        } else {
            assert(t2.habits[i] == t.habits[i] && t2.habits[j] == t.habits[j]);
        }
    }
    assert forall|r: int| 0 <= r < t2.records.len() implies names_of(
        #[trigger] t2.records[r].completions,
    ) == t2.habits by {
        assert(names_of(t.records[r].completions) == t.habits);
        assert(names_of(t2.records[r].completions) =~= names_of(t.records[r].completions).push(
            name,
        ));
    }
}

/// Dropping the entries of a habit that no entry is leaves the entries as they are.
pub proof fn lemma_without_absent_key(cs: Seq<CompletionView>, key: Seq<char>)
    requires
        forall|j: int| 0 <= j < cs.len() ==> lowercase((#[trigger] cs[j]).name) != key,
    ensures
        without_key(cs, key) == cs,
    decreases cs.len(),
{
    if cs.len() > 0 {
        lemma_without_absent_key(cs.drop_last(), key);
        assert(cs.drop_last().push(cs.last()) =~= cs);
    }
}

/// Dropping the entries of a habit that exactly one entry is removes that entry.
pub proof fn lemma_without_single_key(cs: Seq<CompletionView>, key: Seq<char>, i: int)
    requires
        0 <= i < cs.len(),
        lowercase(cs[i].name) == key,
        forall|j: int| 0 <= j < cs.len() && j != i ==> lowercase((#[trigger] cs[j]).name) != key,
    ensures
        without_key(cs, key) == cs.remove(i),
    decreases cs.len(),
{
    let init = cs.drop_last();
    if i == cs.len() - 1 {
        lemma_without_absent_key(init, key);
        assert(cs.remove(i) =~= init);
    } else {
        lemma_without_single_key(init, key, i);
        assert(init.remove(i).push(cs.last()) =~= cs.remove(i));
    }
}

/// Untracking a tracked habit keeps the tracker consistent.
pub proof fn lemma_remove_keeps_consistent(t: TrackerView, key: Seq<char>)
    requires
        consistent(t),
        tracks_key(t, key),
    ensures
        consistent(without_habit(t, key)),
{
    let i = first_index(t.habits, has_key(key));
    lemma_first_index(t.habits, has_key(key));
    let t2 = without_habit(t, key);
    t.habits.remove_ensures(i);
    assert forall|a: int, b: int| 0 <= a < b < t2.habits.len() implies lowercase(
        #[trigger] t2.habits[a],
    ) != lowercase(#[trigger] t2.habits[b]) by {
        let a0 = if a < i { a } else { a + 1 };
        let b0 = if b < i { b } else { b + 1 };
        assert(t2.habits[a] == t.habits[a0]);
        assert(t2.habits[b] == t.habits[b0]);
    }
    assert forall|r: int| 0 <= r < t2.records.len() implies names_of(
        #[trigger] t2.records[r].completions,
    ) == t2.habits by {
        let cs = t.records[r].completions;
        assert(names_of(cs) == t.habits);
        assert forall|j: int| 0 <= j < cs.len() && j != i implies lowercase(
            (#[trigger] cs[j]).name,
        ) != key by {
            assert(cs[j].name == names_of(cs)[j]);
            if j < i {
                assert(lowercase(t.habits[j]) != lowercase(t.habits[i]));
            } else {
                assert(lowercase(t.habits[i]) != lowercase(t.habits[j]));
            }
        }
        assert(cs[i].name == names_of(cs)[i]);
        lemma_without_single_key(cs, key, i);
        assert(names_of(cs.remove(i)) =~= t.habits.remove(i));
    }
}

/// Marking an entry completed keeps the tracker consistent.
pub proof fn lemma_mark_keeps_consistent(t: TrackerView, i: int)
    requires
        t.records.len() > 0,
        0 <= i < t.records.last().completions.len(),
    ensures
        consistent(t) ==> consistent(mark_latest(t, i)),
{
    let t2 = mark_latest(t, i);
    if consistent(t) {
        assert forall|r: int| 0 <= r < t2.records.len() implies names_of(
            #[trigger] t2.records[r].completions,
        ) == t2.habits by {
            if r == t.records.len() - 1 {
                assert(names_of(t2.records[r].completions) =~= names_of(t.records[r].completions));
            } else {
                assert(t2.records[r] == t.records[r]);
            }
        }
    }
}

// ---------------------------------------------------------------------------
// Executable operations
// ---------------------------------------------------------------------------

impl Default for HabitTracker {
    /// A tracker with no habits and no records.
    fn default() -> (t: HabitTracker)
        ensures
            t@.records.len() == 0,
            t@.habits.len() == 0,
    {
        HabitTracker { daily_habit_records: Vec::new(), tracked_habits: Vec::new() }
    }
}

impl DailyRecord {
    /// Index of the first entry whose name is the habit `key` (a lowercased name);
    /// the number of entries if there is none.
    fn find_key(&self, key: &String) -> (i: usize)
        ensures
            i == first_index(names_of(self@.completions), has_key(key@)),
    {
        let ghost names = names_of(self@.completions);
        let mut i: usize = 0;
        while i < self.habit_completions.len()
            invariant
                i <= self.habit_completions.len(),
                names == names_of(self@.completions),
                forall|j: int| 0 <= j < i ==> !has_key(key@)(#[trigger] names[j]),
            decreases self.habit_completions.len() - i,
        {
            let lowered = to_lowercase(self.habit_completions[i].habit_name.as_str());
            if lowered == *key {
                proof {
                    lemma_first_index_is(names, has_key(key@), i as int);
                }
                return i;
            }
            i += 1;
        }
        proof {
            lemma_first_index_is(names, has_key(key@), i as int);
        }
        i
    }

    /// Whether the habit `key` is completed in this record.
    fn completed_for(&self, key: &String) -> (r: bool)
        ensures
            r == completed_in(self@, key@),
    {
        let i = self.find_key(key);
        i < self.habit_completions.len() && self.habit_completions[i].is_completed
    }
}

impl HabitTracker {
    /// The date of the most recent record, if there is one.
    pub fn get_most_recent_date(&self) -> (r: Option<&str>)
        ensures
            match r {
                None => self@.records.len() == 0,
                Some(d) => self@.records.len() > 0 && d@ == self@.records.last().date,
            },
    {
        let n = self.daily_habit_records.len();
        if n == 0 {
            None
        } else {
            Some(self.daily_habit_records[n - 1].record_date.as_str())
        }
    }

    /// The most recent record, to be changed in place, if there is one.
    pub fn get_most_recent_record_mut(&mut self) -> (r: Option<&mut DailyRecord>)
        ensures
            match r {
                None => old(self)@.records.len() == 0 && *final(self) == *old(self),
                Some(record) => {
                    &&& old(self)@.records.len() > 0
                    &&& *record == old(self).daily_habit_records@.last()
                    &&& final(self).daily_habit_records@ == old(self).daily_habit_records@.update(
                        old(self)@.records.len() - 1,
                        *final(record),
                    )
                    &&& final(self).tracked_habits == old(self).tracked_habits
                },
            },
    {
        let n = self.daily_habit_records.len();
        if n == 0 {
            None
        } else {
            Some(&mut self.daily_habit_records[n - 1])
        }
    }

    /// Whether a record for the date `today` still has to be created.
    pub fn needs_new_daily_record(&self, today: &str) -> (r: bool)
        ensures
            r == needs_new_record(self@, today@),
    {
        let n = self.daily_habit_records.len();
        if n == 0 {
            true
        } else {
            let today_string = String::from_str(today);
            !(self.daily_habit_records[n - 1].record_date == today_string)
        }
    }

    /// Appends a record for `date_string` in which no tracked habit is completed.
    pub fn create_new_daily_record(&mut self, date_string: String)
        ensures
            final(self)@ == with_new_record(old(self)@, date_string@),
            consistent(old(self)@) ==> consistent(final(self)@),
    {
        let mut habit_completions: Vec<HabitCompletion> = Vec::new();
        let mut i: usize = 0;
        while i < self.tracked_habits.len()
            invariant
                i <= self.tracked_habits.len(),
                habit_completions@.len() == i,
                forall|j: int|
                    0 <= j < i ==> (#[trigger] habit_completions@[j])@ == (CompletionView {
                        name: self.tracked_habits@[j]@,
                        completed: false,
                    }),
            decreases self.tracked_habits.len() - i,
        {
            habit_completions.push(
                HabitCompletion { habit_name: self.tracked_habits[i].clone(), is_completed: false },
            );
            i += 1;
        }
        let new_record = DailyRecord { record_date: date_string, habit_completions };
        assert(new_record@ =~= fresh_record(self@.habits, date_string@));
        self.daily_habit_records.push(new_record);
        assert(self@.records =~= old(self)@.records.push(fresh_record(old(self)@.habits, date_string@)));
        proof {
            if consistent(old(self)@) {
                lemma_new_record_keeps_consistent(old(self)@, date_string@);
            }
        }
    }
}

impl DailyRecord {
    /// Appends a not yet completed entry for `name`.
    fn add_completion(&mut self, name: &str)
        ensures
            final(self)@ == with_completion(old(self)@, name@),
    {
        self.habit_completions.push(
            HabitCompletion { habit_name: String::from_str(name), is_completed: false },
        );
        assert(self@.completions =~= old(self)@.completions.push(
            CompletionView { name: name@, completed: false },
        ));
    }
}

impl HabitTracker {
    /// Starts tracking a habit, named by `new_habit_name` with surrounding
    /// whitespace removed, with a not yet completed entry in every record.
    /// Refuses an empty name, one over 100 bytes, and one already tracked
    /// (ignoring case); then nothing changes.
    pub fn add_new_habit(&mut self, new_habit_name: String) -> (r: Result<(), String>)
        ensures
            match add_refusal(old(self)@, new_habit_name@) {
                Some(message) => r matches Err(e) && e@ == message && final(self)@ == old(self)@,
                None => r is Ok && final(self)@ == with_habit(
                    old(self)@,
                    trim_seq(new_habit_name@),
                ),
            },
            consistent(old(self)@) ==> consistent(final(self)@),
    {
        let trimmed_habit = trim(new_habit_name.as_str());
        if trimmed_habit.is_empty() {
            return Err(String::from_str("Habit name cannot be empty or just whitespace"));
        }
        let char_count = trimmed_habit.unicode_len();
        proof {
            lemma_byte_len_bounds(trimmed_habit@);
        }
        if char_count > 100 || trimmed_habit.len() > 100 {
            return Err(String::from_str("Habit name is too long (maximum 100 characters)"));
        }
        let key = to_lowercase(trimmed_habit);
        let ghost habits = self@.habits;
        let mut i: usize = 0;
        while i < self.tracked_habits.len()
            invariant
                i <= self.tracked_habits.len(),
                habits == self@.habits,
                self@ == old(self)@,
                trimmed_habit@ == trim_seq(new_habit_name@),
                trimmed_habit@.len() > 0,
                encode_utf8(trimmed_habit@).len() <= 100,
                key@ == lowercase(trimmed_habit@),
                forall|j: int| 0 <= j < i ==> !has_key(key@)(#[trigger] habits[j]),
            decreases self.tracked_habits.len() - i,
        {
            let lowered = to_lowercase(self.tracked_habits[i].as_str());
            if lowered == key {
                proof {
                    lemma_first_index_is(habits, has_key(key@), i as int);
                }
                let mut message = String::from_str("A habit similar to '");
                message.append(trimmed_habit);
                message.append("' already exists");
                return Err(message);
            }
            i += 1;
        }
        proof {
            lemma_first_index_is(habits, has_key(key@), i as int);
        }
        self.tracked_habits.push(String::from_str(trimmed_habit));
        let ghost old_records = self@.records;
        let mut r: usize = 0;
        while r < self.daily_habit_records.len()
            invariant
                r <= self.daily_habit_records.len() == old_records.len(),
                self@.habits == old(self)@.habits.push(trimmed_habit@),
                forall|k: int|
                    0 <= k < r ==> (#[trigger] self.daily_habit_records@[k])@ == with_completion(
                        old_records[k],
                        trimmed_habit@,
                    ),
                forall|k: int|
                    r <= k < old_records.len() ==> (#[trigger] self.daily_habit_records@[k])@
                        == old_records[k],
            decreases self.daily_habit_records.len() - r,
        {
            let ghost before = self.daily_habit_records@;
            self.daily_habit_records[r].add_completion(trimmed_habit);
            assert(self.daily_habit_records@ == before.update(
                r as int,
                self.daily_habit_records@[r as int],
            ));
            r += 1;
        }
        assert(self@.records =~= old_records.map_values(
            |rec: RecordView| with_completion(rec, trimmed_habit@),
        ));
        proof {
            if consistent(old(self)@) {
                lemma_add_keeps_consistent(old(self)@, trimmed_habit@);
            }
        }
        Ok(())
    }
}

impl DailyRecord {
    /// Drops every entry whose name is the habit `key` (a lowercased name).
    fn remove_completions(&mut self, key: &String)
        ensures
            final(self)@ == record_without(old(self)@, key@),
    {
        let ghost cs = self@.completions;
        let mut kept: Vec<HabitCompletion> = Vec::new();
        let mut i: usize = 0;
        assert(cs.take(0) =~= Seq::<CompletionView>::empty());
        while i < self.habit_completions.len()
            invariant
                i <= self.habit_completions.len(),
                cs == self@.completions,
                kept@.map_values(|c: HabitCompletion| c@) == without_key(cs.take(i as int), key@),
            decreases self.habit_completions.len() - i,
        {
            let ghost before = kept@;
            let completion = &self.habit_completions[i];
            let lowered = to_lowercase(completion.habit_name.as_str());
            assert(cs.take(i + 1).drop_last() =~= cs.take(i as int));
            assert(cs.take(i + 1).last() == completion@);
            if !(lowered == *key) {
                kept.push(
                    HabitCompletion {
                        habit_name: completion.habit_name.clone(),
                        is_completed: completion.is_completed,
                    },
                );
                assert(kept@.map_values(|c: HabitCompletion| c@) =~= before.map_values(
                    |c: HabitCompletion| c@,
                ).push(completion@));
            }
            i += 1;
        }
        assert(cs.take(i as int) =~= cs);
        self.habit_completions = kept;
    }
}

impl HabitTracker {
    /// Stops tracking the first tracked habit that is the same as `habit_to_remove`
    /// (ignoring case) and drops its entries, under any spelling of that name, from
    /// every record. Returns whether such a habit was tracked; if not, nothing changes.
    pub fn remove_habit(&mut self, habit_to_remove: &str) -> (r: bool)
        ensures
            r == tracks_key(old(self)@, lowercase(habit_to_remove@)),
            r ==> final(self)@ == without_habit(old(self)@, lowercase(habit_to_remove@)),
            !r ==> final(self)@ == old(self)@,
            consistent(old(self)@) ==> consistent(final(self)@),
    {
        let key = to_lowercase(habit_to_remove);
        let ghost habits = self@.habits;
        let mut i: usize = 0;
        while i < self.tracked_habits.len()
            invariant
                i <= self.tracked_habits.len(),
                habits == self@.habits,
                forall|j: int| 0 <= j < i ==> !has_key(key@)(#[trigger] habits[j]),
            ensures
                i <= self.tracked_habits.len(),
                habits == self@.habits,
                forall|j: int| 0 <= j < i ==> !has_key(key@)(#[trigger] habits[j]),
                i < self.tracked_habits.len() ==> has_key(key@)(habits[i as int]),
            decreases self.tracked_habits.len() - i,
        {
            let lowered = to_lowercase(self.tracked_habits[i].as_str());
            if lowered == key {
                break;
            }
            i += 1;
        }
        proof {
            lemma_first_index_is(habits, has_key(key@), i as int);
        }
        if i == self.tracked_habits.len() {
            return false;
        }
        let removed_habit = self.tracked_habits.remove(i);
        let removed_key = to_lowercase(removed_habit.as_str());
        assert(self@.habits =~= habits.remove(i as int));
        let ghost old_records = self@.records;
        let mut r: usize = 0;
        while r < self.daily_habit_records.len()
            invariant
                r <= self.daily_habit_records.len() == old_records.len(),
                self@.habits == habits.remove(i as int),
                removed_key@ == key@,
                forall|k: int|
                    0 <= k < r ==> (#[trigger] self.daily_habit_records@[k])@ == record_without(
                        old_records[k],
                        key@,
                    ),
                forall|k: int|
                    r <= k < old_records.len() ==> (#[trigger] self.daily_habit_records@[k])@
                        == old_records[k],
            decreases self.daily_habit_records.len() - r,
        {
            let ghost before = self.daily_habit_records@;
            self.daily_habit_records[r].remove_completions(&removed_key);
            assert(self.daily_habit_records@ == before.update(
                r as int,
                self.daily_habit_records@[r as int],
            ));
            r += 1;
        }
        assert(self@.records =~= old_records.map_values(
            |rec: RecordView| record_without(rec, key@),
        ));
        proof {
            if consistent(old(self)@) {
                lemma_remove_keeps_consistent(old(self)@, key@);
            }
        }
        true
    }
}

impl DailyRecord {
    /// Marks entry `i` completed.
    fn set_completed(&mut self, i: usize)
        requires
            i < old(self).habit_completions.len(),
        ensures
            final(self)@ == (RecordView {
                date: old(self)@.date,
                completions: old(self)@.completions.update(
                    i as int,
                    CompletionView { name: old(self)@.completions[i as int].name, completed: true },
                ),
            }),
    {
        self.habit_completions[i].is_completed = true;
        assert(self@.completions =~= old(self)@.completions.update(
            i as int,
            CompletionView { name: old(self)@.completions[i as int].name, completed: true },
        ));
    }

    /// Index of the first entry named exactly `name`; the number of entries if none is.
    fn find_name(&self, name: &String) -> (i: usize)
        ensures
            i == first_index(names_of(self@.completions), is_name(name@)),
    {
        let ghost names = names_of(self@.completions);
        let mut i: usize = 0;
        while i < self.habit_completions.len()
            invariant
                i <= self.habit_completions.len(),
                names == names_of(self@.completions),
                forall|j: int| 0 <= j < i ==> !is_name(name@)(#[trigger] names[j]),
            decreases self.habit_completions.len() - i,
        {
            if self.habit_completions[i].habit_name == *name {
                proof {
                    lemma_first_index_is(names, is_name(name@), i as int);
                }
                return i;
            }
            i += 1;
        }
        proof {
            lemma_first_index_is(names, is_name(name@), i as int);
        }
        i
    }
}

impl HabitTracker {
    /// Marks entry `index` of the most recent record completed. Returns whether
    /// there was such an entry; if not, nothing changes.
    pub fn mark_latest_completion_at(&mut self, index: usize) -> (r: bool)
        ensures
            r == (old(self)@.records.len() > 0 && index
                < old(self)@.records.last().completions.len()),
            r ==> final(self)@ == mark_latest(old(self)@, index as int),
            !r ==> final(self)@ == old(self)@,
            consistent(old(self)@) ==> consistent(final(self)@),
    {
        match self.get_most_recent_record_mut() {
            None => {
                return false;
            },
            Some(record) => {
                if index >= record.habit_completions.len() {
                    return false;
                }
                record.set_completed(index);
            },
        }
        assert(self@.records =~= mark_latest(old(self)@, index as int).records);
        proof {
            lemma_mark_keeps_consistent(old(self)@, index as int);
        }
        true
    }

    /// Marks completed, in the most recent record, the first entry that is the
    /// habit `habit_name` (ignoring case). Returns whether there was one; if not,
    /// nothing changes.
    pub fn mark_latest_completed(&mut self, habit_name: &str) -> (r: bool)
        ensures
            r == can_mark(old(self)@, has_key(lowercase(habit_name@))),
            r ==> final(self)@ == mark_latest(
                old(self)@,
                latest_match(old(self)@, has_key(lowercase(habit_name@))),
            ),
            !r ==> final(self)@ == old(self)@,
            consistent(old(self)@) ==> consistent(final(self)@),
    {
        let n = self.daily_habit_records.len();
        if n == 0 {
            return false;
        }
        let key = to_lowercase(habit_name);
        let i = self.daily_habit_records[n - 1].find_key(&key);
        self.mark_latest_completion_at(i)
    }

    /// Marks completed, in the most recent record, the first entry named exactly
    /// `habit_name`. Returns whether there was one; if not, nothing changes.
    pub fn mark_latest_completed_exact(&mut self, habit_name: &String) -> (r: bool)
        ensures
            r == can_mark(old(self)@, is_name(habit_name@)),
            r ==> final(self)@ == mark_latest(old(self)@, latest_match(old(self)@, is_name(habit_name@))),
            !r ==> final(self)@ == old(self)@,
            consistent(old(self)@) ==> consistent(final(self)@),
    {
        let n = self.daily_habit_records.len();
        if n == 0 {
            return false;
        }
        let i = self.daily_habit_records[n - 1].find_name(habit_name);
        self.mark_latest_completion_at(i)
    }

    /// The number of records in which `target_habit` (ignoring case) is completed,
    /// and the number of records.
    pub fn calculate_habit_statistics(&self, target_habit: &str) -> (r: (usize, usize))
        ensures
            r.0 == count_completed(self@.records, lowercase(target_habit@)),
            r.1 == self@.records.len(),
    {
        let key = to_lowercase(target_habit);
        let ghost records = self@.records;
        let mut completed_days: usize = 0;
        let mut i: usize = 0;
        while i < self.daily_habit_records.len()
            invariant
                i <= self.daily_habit_records.len(),
                records == self@.records,
                completed_days == count_completed(records.take(i as int), key@),
                completed_days <= i,
            decreases self.daily_habit_records.len() - i,
        {
            assert(records.take(i + 1).drop_last() =~= records.take(i as int));
            if self.daily_habit_records[i].completed_for(&key) {
                completed_days += 1;
            }
            i += 1;
        }
        assert(records.take(i as int) =~= records);
        (completed_days, self.daily_habit_records.len())
    }
}

/// The number of most recent records, in a row, in which `target_habit`
/// (ignoring case) is completed.
pub fn calculate_current_streak(habit_tracker: &HabitTracker, target_habit: &str) -> (r: usize)
    ensures
        r == streak(habit_tracker@.records, lowercase(target_habit@)),
{
    let key = to_lowercase(target_habit);
    let ghost records = habit_tracker@.records;
    let n = habit_tracker.daily_habit_records.len();
    let mut current_streak: usize = 0;
    let mut i: usize = n;
    assert(records.take(n as int) =~= records);
    while i > 0 && habit_tracker.daily_habit_records[i - 1].completed_for(&key)
        invariant
            i <= n == habit_tracker.daily_habit_records.len(),
            records == habit_tracker@.records,
            current_streak == n - i,
            streak(records, key@) == current_streak + streak(records.take(i as int), key@),
        decreases i,
    {
        assert(records.take(i - 1) =~= records.take(i as int).drop_last());
        i -= 1;
        current_streak += 1;
    }
    current_streak
}

} // verus!
