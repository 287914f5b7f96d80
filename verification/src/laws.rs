//! Properties that relate the tracker's operations to each other.
use vstd::prelude::*;

use crate::text::{is_white_space, lowercase, trim_end_seq, trim_seq, trim_start_seq};
use vstd::utf8::encode_utf8;

use crate::menu::{choice_of, yes_no_meaning, UserChoice};

use crate::tracker::{
    fresh_record, is_name, latest_match as latest_index, record_without, without_key,
    CompletionView, RecordView,
};
use crate::tracker::{
    add_refusal, can_mark, completed_in, consistent, count_completed, first_index, has_key,
    latest_match, lemma_first_index, lemma_first_index_is, lemma_without_absent_key,
    mark_latest, names_of, needs_new_record, streak, tracks_key, with_habit, with_new_record,
    without_habit, TrackerView,
};

verus! {

/// Removing a habit right after adding it, by any spelling of its name that is
/// the same ignoring case, gives back the tracker as it was.
pub proof fn lemma_remove_undoes_add(t: TrackerView, name: Seq<char>, spelling: Seq<char>)
    requires
        consistent(t),
        add_refusal(t, name) is None,
        lowercase(spelling) == lowercase(trim_seq(name)),
    ensures
        tracks_key(with_habit(t, trim_seq(name)), lowercase(spelling)),
        without_habit(with_habit(t, trim_seq(name)), lowercase(spelling)) == t,
{
    let n = trim_seq(name);
    let key = lowercase(spelling);
    let t2 = with_habit(t, n);
    lemma_first_index(t.habits, has_key(key));
    assert forall|j: int| 0 <= j < t2.habits.len() - 1 implies !has_key(key)(
        #[trigger] t2.habits[j],
    ) by {
        assert(t2.habits[j] == t.habits[j]);
    }
    lemma_first_index_is(t2.habits, has_key(key), t.habits.len() as int);
    assert(t2.habits.remove(t.habits.len() as int) =~= t.habits);
    let t3 = without_habit(t2, key);
    assert forall|r: int| 0 <= r < t.records.len() implies #[trigger] t3.records[r] == t.records[r] by {
        let cs = t.records[r].completions;
        assert(names_of(cs) == t.habits);
        assert forall|j: int| 0 <= j < cs.len() implies lowercase((#[trigger] cs[j]).name)
            != key by {
            assert(cs[j].name == names_of(cs)[j]);
        }
        lemma_without_absent_key(cs, key);
        let pushed = t2.records[r].completions;
        assert(pushed.drop_last() =~= cs);
    }
    assert(t3.records =~= t.records);
}

/// Once a name is added, adding it again, or any name that trims to the same
/// habit ignoring case, is refused.
pub proof fn lemma_add_refuses_repeat(t: TrackerView, name: Seq<char>, again: Seq<char>)
    requires
        add_refusal(t, name) is None,
        lowercase(trim_seq(again)) == lowercase(trim_seq(name)),
    ensures
        add_refusal(with_habit(t, trim_seq(name)), again) is Some,
{
    let t2 = with_habit(t, trim_seq(name));
    let key = lowercase(trim_seq(again));
    lemma_first_index(t2.habits, has_key(key));
    if first_index(t2.habits, has_key(key)) == t2.habits.len() {
        assert(!has_key(key)(t2.habits[t.habits.len() as int]));
    }
}

/// A habit is completed on at most as many days as there are records.
pub proof fn lemma_completed_at_most_days(records: Seq<crate::tracker::RecordView>, key: Seq<char>)
    ensures
        count_completed(records, key) <= records.len(),
    decreases records.len(),
{
    if records.len() > 0 {
        lemma_completed_at_most_days(records.drop_last(), key);
    }
}

/// The current streak of a habit is at most the number of days it was completed.
pub proof fn lemma_streak_at_most_completed(records: Seq<crate::tracker::RecordView>, key: Seq<char>)
    ensures
        streak(records, key) <= count_completed(records, key),
    decreases records.len(),
{
    if records.len() > 0 {
        lemma_streak_at_most_completed(records.drop_last(), key);
    }
}

/// A new day starts with no habit completed: the number of completed days of
/// every habit stays as it was, and every streak is 0.
pub proof fn lemma_new_day_completes_nothing(t: TrackerView, date: Seq<char>, key: Seq<char>)
    ensures
        count_completed(with_new_record(t, date).records, key) == count_completed(t.records, key),
        streak(with_new_record(t, date).records, key) == 0,
{
    let records = with_new_record(t, date).records;
    assert(records.drop_last() =~= t.records);
    let cs = records.last().completions;
    lemma_first_index(names_of(cs), has_key(key));
    let i = first_index(names_of(cs), has_key(key));
    if i < cs.len() {
        assert(!cs[i].completed);
    }
}

/// After the record for a date is created, it is the most recent record, and no
/// record for that date needs to be created any more.
pub proof fn lemma_new_record_is_latest(t: TrackerView, date: Seq<char>)
    ensures
        with_new_record(t, date).records.last().date == date,
        !needs_new_record(with_new_record(t, date), date),
{
}

/// After a habit is marked completed in the most recent record, that record
/// counts it as completed, and it is counted on one more day than among the
/// earlier records.
pub proof fn lemma_marked_habit_is_completed(t: TrackerView, key: Seq<char>)
    requires
        can_mark(t, has_key(key)),
    ensures
        completed_in(mark_latest(t, latest_match(t, has_key(key))).records.last(), key),
        count_completed(mark_latest(t, latest_match(t, has_key(key))).records, key)
            == count_completed(t.records.drop_last(), key) + 1,
{
    let i = latest_match(t, has_key(key));
    let t2 = mark_latest(t, i);
    lemma_first_index(names_of(t.records.last().completions), has_key(key));
    let last = t.records.len() - 1;
    assert(t2.records.last() == t2.records[last]);
    assert(names_of(t2.records.last().completions) =~= names_of(t.records.last().completions));
    assert(t2.records.drop_last() =~= t.records.drop_last());
}

/// What `trim_end_seq` keeps is a prefix of its argument, not ending in whitespace.
pub proof fn lemma_trim_end_prefix(s: Seq<char>)
    ensures
        trim_end_seq(s).len() <= s.len(),
        forall|i: int| 0 <= i < trim_end_seq(s).len() ==> #[trigger] trim_end_seq(s)[i] == s[i],
        trim_end_seq(s).len() > 0 ==> !is_white_space(trim_end_seq(s).last()),
    decreases s.len(),
{
    if s.len() > 0 && is_white_space(s.last()) {
        lemma_trim_end_prefix(s.drop_last());
    }
}

/// A trimmed string neither starts nor ends with whitespace, and trimming it
/// again changes nothing.
pub proof fn lemma_trim_idempotent(s: Seq<char>)
    ensures
        trim_seq(s).len() > 0 ==> !is_white_space(trim_seq(s)[0]),
        trim_seq(s).len() > 0 ==> !is_white_space(trim_seq(s).last()),
        trim_seq(trim_seq(s)) == trim_seq(s),
{
    let v = trim_start_seq(s);
    lemma_trim_start_suffix(s);
    lemma_trim_end_prefix(v);
    let u = trim_seq(s);
    if u.len() > 0 {
        assert(u[0] == v[0]);
    }
    assert(trim_start_seq(u) == u);
}

/// What `trim_start_seq` keeps does not start with whitespace.
pub proof fn lemma_trim_start_suffix(s: Seq<char>)
    ensures
        trim_start_seq(s).len() > 0 ==> !is_white_space(trim_start_seq(s)[0]),
    decreases s.len(),
{
    if s.len() > 0 && is_white_space(s[0]) {
        lemma_trim_start_suffix(s.drop_first());
    }
}

/// When `add_new_habit` accepts a name and with which message it refuses one,
/// in terms of the trimmed name: empty names, names over 100 bytes and names
/// that equal a tracked habit once both are lowercased are refused, each with
/// its message; every other name is accepted.
pub proof fn lemma_add_refusal_cases(t: TrackerView, name: Seq<char>)
    ensures
        trim_seq(name).len() == 0 ==> add_refusal(t, name) == Some(
            "Habit name cannot be empty or just whitespace"@,
        ),
        trim_seq(name).len() > 0 && encode_utf8(trim_seq(name)).len() > 100 ==> add_refusal(
            t,
            name,
        ) == Some("Habit name is too long (maximum 100 characters)"@),
        trim_seq(name).len() > 0 && encode_utf8(trim_seq(name)).len() <= 100 && (exists|j: int|
            0 <= j < t.habits.len() && lowercase(#[trigger] t.habits[j]) == lowercase(
                trim_seq(name),
            )) ==> add_refusal(t, name) == Some(
            "A habit similar to '"@ + trim_seq(name) + "' already exists"@,
        ),
        trim_seq(name).len() > 0 && encode_utf8(trim_seq(name)).len() <= 100 && (forall|j: int|
            0 <= j < t.habits.len() ==> lowercase(#[trigger] t.habits[j]) != lowercase(
                trim_seq(name),
            )) ==> add_refusal(t, name) is None,
{
    let key = lowercase(trim_seq(name));
    lemma_first_index(t.habits, has_key(key));
    if exists|j: int| 0 <= j < t.habits.len() && lowercase(#[trigger] t.habits[j]) == key {
        let j = choose|j: int| 0 <= j < t.habits.len() && lowercase(#[trigger] t.habits[j]) == key;
        assert(has_key(key)(t.habits[j]));
    }
    if first_index(t.habits, has_key(key)) < t.habits.len() {
        let i = first_index(t.habits, has_key(key));
        assert(lowercase(t.habits[i]) == key);
    }
}

/// Adding the habit `n` appends `n` to the tracked habits and, to every record,
/// a not completed entry for `n`; nothing else changes.
pub proof fn lemma_with_habit_shape(t: TrackerView, n: Seq<char>)
    ensures
        with_habit(t, n).habits == t.habits.push(n),
        with_habit(t, n).records.len() == t.records.len(),
        forall|r: int|
            0 <= r < t.records.len() ==> (#[trigger] with_habit(t, n).records[r]).date
                == t.records[r].date && with_habit(t, n).records[r].completions
                == t.records[r].completions.push(CompletionView { name: n, completed: false }),
{
}

/// A record for `today` is needed exactly when there is no record or the most
/// recent record's date differs from `today`.
pub proof fn lemma_needs_new_record_iff(t: TrackerView, today: Seq<char>)
    ensures
        needs_new_record(t, today) == (t.records.len() == 0 || t.records[t.records.len() - 1].date
            != today),
{
}

/// Creating the record for `date` appends one record dated `date` that lists
/// every tracked habit, in order, none completed; nothing else changes.
pub proof fn lemma_new_record_shape(t: TrackerView, date: Seq<char>)
    ensures
        with_new_record(t, date).habits == t.habits,
        with_new_record(t, date).records.len() == t.records.len() + 1,
        forall|r: int|
            0 <= r < t.records.len() ==> #[trigger] with_new_record(t, date).records[r]
                == t.records[r],
        with_new_record(t, date).records.last().date == date,
        with_new_record(t, date).records.last().completions.len() == t.habits.len(),
        forall|j: int|
            0 <= j < t.habits.len() ==> (#[trigger] with_new_record(t, date).records.last().completions[j])
                == (CompletionView { name: t.habits[j], completed: false }),
{
    assert(with_new_record(t, date).records.last() == fresh_record(t.habits, date));
}

/// Marking entry `i` of the most recent record sets that entry completed and
/// changes nothing else: no other entry, no other record, no habit.
pub proof fn lemma_mark_latest_shape(t: TrackerView, i: int)
    requires
        t.records.len() > 0,
        0 <= i < t.records.last().completions.len(),
    ensures
        mark_latest(t, i).habits == t.habits,
        mark_latest(t, i).records.len() == t.records.len(),
        forall|r: int|
            0 <= r < t.records.len() - 1 ==> #[trigger] mark_latest(t, i).records[r] == t.records[r],
        mark_latest(t, i).records.last().date == t.records.last().date,
        mark_latest(t, i).records.last().completions.len() == t.records.last().completions.len(),
        mark_latest(t, i).records.last().completions[i] == (CompletionView {
            name: t.records.last().completions[i].name,
            completed: true,
        }),
        forall|j: int|
            0 <= j < t.records.last().completions.len() && j != i ==> #[trigger] mark_latest(
                t,
                i,
            ).records.last().completions[j] == t.records.last().completions[j],
{
    let last = t.records.len() - 1;
    assert(mark_latest(t, i).records.last() == mark_latest(t, i).records[last]);
}

/// The entry that marking by exact name picks: it exists exactly when the most
/// recent record has an entry named `name`, and it is the first such entry.
pub proof fn lemma_mark_exact_target(t: TrackerView, name: Seq<char>)
    ensures
        can_mark(t, is_name(name)) == (t.records.len() > 0 && exists|j: int|
            0 <= j < t.records.last().completions.len()
                && (#[trigger] t.records.last().completions[j]).name == name),
        can_mark(t, is_name(name)) ==> {
            let i = latest_index(t, is_name(name));
            &&& 0 <= i < t.records.last().completions.len()
            &&& t.records.last().completions[i].name == name
            &&& forall|j: int|
                0 <= j < i ==> (#[trigger] t.records.last().completions[j]).name != name
        },
{
    if t.records.len() > 0 {
        let cs = t.records.last().completions;
        lemma_first_index(names_of(cs), is_name(name));
        assert forall|j: int| 0 <= j < cs.len() implies (#[trigger] cs[j]).name == names_of(
            cs,
        )[j] by {}
        if exists|j: int| 0 <= j < cs.len() && (#[trigger] cs[j]).name == name {
            let j = choose|j: int| 0 <= j < cs.len() && (#[trigger] cs[j]).name == name;
            assert(is_name(name)(names_of(cs)[j]));
        }
        if can_mark(t, is_name(name)) {
            let i = latest_index(t, is_name(name));
            assert(is_name(name)(names_of(cs)[i]));
            assert forall|j: int| 0 <= j < i implies (#[trigger] cs[j]).name != name by {
                assert(!is_name(name)(names_of(cs)[j]));
            }
        }
    }
}

/// The entry that marking by name ignoring case picks: it exists exactly when
/// the most recent record has an entry whose lowercase name is `key`, and it is
/// the first such entry.
pub proof fn lemma_mark_key_target(t: TrackerView, key: Seq<char>)
    ensures
        can_mark(t, has_key(key)) == (t.records.len() > 0 && exists|j: int|
            0 <= j < t.records.last().completions.len() && lowercase(
                (#[trigger] t.records.last().completions[j]).name,
            ) == key),
        can_mark(t, has_key(key)) ==> {
            let i = latest_index(t, has_key(key));
            &&& 0 <= i < t.records.last().completions.len()
            &&& lowercase(t.records.last().completions[i].name) == key
            &&& forall|j: int|
                0 <= j < i ==> lowercase((#[trigger] t.records.last().completions[j]).name) != key
        },
{
    if t.records.len() > 0 {
        let cs = t.records.last().completions;
        lemma_first_index(names_of(cs), has_key(key));
        assert forall|j: int| 0 <= j < cs.len() implies (#[trigger] cs[j]).name == names_of(
            cs,
        )[j] by {}
        if exists|j: int| 0 <= j < cs.len() && lowercase((#[trigger] cs[j]).name) == key {
            let j = choose|j: int| 0 <= j < cs.len() && lowercase((#[trigger] cs[j]).name) == key;
            assert(has_key(key)(names_of(cs)[j]));
        }
        if can_mark(t, has_key(key)) {
            let i = latest_index(t, has_key(key));
            assert(has_key(key)(names_of(cs)[i]));
            assert forall|j: int| 0 <= j < i implies lowercase((#[trigger] cs[j]).name) != key by {
                assert(!has_key(key)(names_of(cs)[j]));
            }
        }
    }
}

/// A habit counts as completed in a record exactly when the record's first
/// entry whose lowercase name is `key` exists and is completed.
pub proof fn lemma_completed_in_iff(r: RecordView, key: Seq<char>)
    ensures
        completed_in(r, key) == exists|i: int|
            0 <= i < r.completions.len() && (#[trigger] r.completions[i]).completed && lowercase(
                r.completions[i].name,
            ) == key && forall|j: int|
                0 <= j < i ==> lowercase((#[trigger] r.completions[j]).name) != key,
{
    let cs = r.completions;
    lemma_first_index(names_of(cs), has_key(key));
    assert forall|j: int| 0 <= j < cs.len() implies (#[trigger] cs[j]).name == names_of(cs)[j] by {}
    let f = first_index(names_of(cs), has_key(key));
    if exists|i: int|
        0 <= i < cs.len() && (#[trigger] cs[i]).completed && lowercase(cs[i].name) == key
            && forall|j: int| 0 <= j < i ==> lowercase((#[trigger] cs[j]).name) != key {
        let i = choose|i: int|
            0 <= i < cs.len() && (#[trigger] cs[i]).completed && lowercase(cs[i].name) == key
                && forall|j: int| 0 <= j < i ==> lowercase((#[trigger] cs[j]).name) != key;
        assert forall|j: int| 0 <= j < i implies !has_key(key)(#[trigger] names_of(cs)[j]) by {
            assert(lowercase(cs[j].name) != key);
        }
        lemma_first_index_is(names_of(cs), has_key(key), i);
    }
    if completed_in(r, key) {
        assert(has_key(key)(names_of(cs)[f]));
        assert forall|j: int| 0 <= j < f implies lowercase((#[trigger] cs[j]).name) != key by {
            assert(!has_key(key)(names_of(cs)[j]));
        }
        assert(cs[f].completed);
    }
}

/// The number of days a habit was completed: none without records, and one
/// more record adds 1 exactly when the habit is completed in it.
pub proof fn lemma_count_completed_steps(records: Seq<RecordView>, r: RecordView, key: Seq<char>)
    ensures
        count_completed(Seq::<RecordView>::empty(), key) == 0,
        count_completed(records.push(r), key) == count_completed(records, key) + if completed_in(
            r,
            key,
        ) {
            1int
        } else {
            0int
        },
{
    assert(records.push(r).drop_last() =~= records);
}

/// The current streak: none without records; one more record extends it by 1
/// when the habit is completed in that record, and ends it (0) otherwise.
pub proof fn lemma_streak_steps(records: Seq<RecordView>, r: RecordView, key: Seq<char>)
    ensures
        streak(Seq::<RecordView>::empty(), key) == 0,
        streak(records.push(r), key) == if completed_in(r, key) {
            streak(records, key) + 1
        } else {
            0
        },
{
    assert(records.push(r).drop_last() =~= records);
}

/// Dropping a habit's entries keeps exactly the other entries, in order.
pub proof fn lemma_without_key_is_filter(cs: Seq<CompletionView>, key: Seq<char>)
    ensures
        without_key(cs, key) == cs.filter(|c: CompletionView| lowercase(c.name) != key),
    decreases cs.len(),
{
    reveal(Seq::filter);
    if cs.len() > 0 {
        lemma_without_key_is_filter(cs.drop_last(), key);
    }
}

/// Which habit `remove_habit` removes: it finds one exactly when some tracked
/// habit's lowercase name is `key`; it removes the first such habit from the
/// tracked habits, and from every record exactly the entries whose lowercase
/// name is `key`, keeping the others in order.
pub proof fn lemma_without_habit_shape(t: TrackerView, key: Seq<char>)
    ensures
        tracks_key(t, key) == exists|j: int|
            0 <= j < t.habits.len() && lowercase(#[trigger] t.habits[j]) == key,
        tracks_key(t, key) ==> {
            let i = first_index(t.habits, has_key(key));
            &&& 0 <= i < t.habits.len()
            &&& lowercase(t.habits[i]) == key
            &&& forall|j: int| 0 <= j < i ==> lowercase(#[trigger] t.habits[j]) != key
            &&& without_habit(t, key).habits == t.habits.remove(i)
        },
        without_habit(t, key).records.len() == t.records.len(),
        forall|r: int|
            0 <= r < t.records.len() ==> (#[trigger] without_habit(t, key).records[r]).date
                == t.records[r].date && without_habit(t, key).records[r].completions
                == t.records[r].completions.filter(|c: CompletionView| lowercase(c.name) != key),
{
    lemma_first_index(t.habits, has_key(key));
    if exists|j: int| 0 <= j < t.habits.len() && lowercase(#[trigger] t.habits[j]) == key {
        let j = choose|j: int| 0 <= j < t.habits.len() && lowercase(#[trigger] t.habits[j]) == key;
        assert(has_key(key)(t.habits[j]));
    }
    if tracks_key(t, key) {
        let i = first_index(t.habits, has_key(key));
        assert(has_key(key)(t.habits[i]));
        assert forall|j: int| 0 <= j < i implies lowercase(#[trigger] t.habits[j]) != key by {
            assert(!has_key(key)(t.habits[j]));
        }
    }
    assert forall|r: int| 0 <= r < t.records.len() implies (#[trigger] without_habit(
        t,
        key,
    ).records[r]).date == t.records[r].date && without_habit(t, key).records[r].completions
        == t.records[r].completions.filter(|c: CompletionView| lowercase(c.name) != key) by {
        assert(without_habit(t, key).records[r] == record_without(t.records[r], key));
        lemma_without_key_is_filter(t.records[r].completions, key);
    }
}

/// `trim_seq(s)` is the part of `s` between its leading and its trailing
/// whitespace: a slice `s[a..b]` with only whitespace before `a` and from `b`
/// on, that neither starts nor ends with whitespace.
pub proof fn lemma_trim_is_inner_slice(s: Seq<char>) -> (ab: (int, int))
    ensures
        0 <= ab.0 <= ab.1 <= s.len(),
        trim_seq(s) == s.subrange(ab.0, ab.1),
        forall|k: int| 0 <= k < ab.0 ==> is_white_space(#[trigger] s[k]),
        forall|k: int| ab.1 <= k < s.len() ==> is_white_space(#[trigger] s[k]),
        ab.0 < ab.1 ==> !is_white_space(s[ab.0]) && !is_white_space(s[ab.1 - 1]),
{
    let a = lemma_trim_start_drops(s);
    let v = s.subrange(a, s.len() as int);
    let e = lemma_trim_end_drops(v);
    if a < s.len() {
        assert(!is_white_space(v[0]));
    }
    assert forall|k: int| a + e <= k < s.len() implies is_white_space(#[trigger] s[k]) by {
        assert(s[k] == v[k - a]);
    }
    assert(v.subrange(0, e) =~= s.subrange(a, a + e));
    if 0 < e {
        assert(s[a] == v[0]);
        assert(s[a + e - 1] == v[e - 1]);
        if a == s.len() {
            assert(false);
        }
    }
    (a, a + e)
}

/// `trim_start_seq(s)` drops exactly the whitespace before the first other character.
proof fn lemma_trim_start_drops(s: Seq<char>) -> (a: int)
    ensures
        0 <= a <= s.len(),
        trim_start_seq(s) == s.subrange(a, s.len() as int),
        forall|k: int| 0 <= k < a ==> is_white_space(#[trigger] s[k]),
        a < s.len() ==> !is_white_space(s[a]),
    decreases s.len(),
{
    if s.len() > 0 && is_white_space(s[0]) {
        let rest = s.drop_first();
        let a0 = lemma_trim_start_drops(rest);
        assert(rest.subrange(a0, rest.len() as int) =~= s.subrange(a0 + 1, s.len() as int));
        assert forall|k: int| 0 <= k < a0 + 1 implies is_white_space(#[trigger] s[k]) by {
            if k > 0 {
                assert(s[k] == rest[k - 1]);
            }
        }
        a0 + 1
    } else {
        assert(s.subrange(0, s.len() as int) =~= s);
        0
    }
}

/// `trim_end_seq(s)` keeps exactly the part before the trailing whitespace.
proof fn lemma_trim_end_drops(s: Seq<char>) -> (e: int)
    ensures
        0 <= e <= s.len(),
        trim_end_seq(s) == s.subrange(0, e),
        forall|k: int| e <= k < s.len() ==> is_white_space(#[trigger] s[k]),
        e > 0 ==> !is_white_space(s[e - 1]),
    decreases s.len(),
{
    if s.len() > 0 && is_white_space(s.last()) {
        let init = s.drop_last();
        let e0 = lemma_trim_end_drops(init);
        assert(init.subrange(0, e0) =~= s.subrange(0, e0));
        assert forall|k: int| e0 <= k < s.len() implies is_white_space(#[trigger] s[k]) by {
            if k < s.len() - 1 {
                assert(s[k] == init[k]);
            }
        }
        e0
    } else {
        assert(s.subrange(0, s.len() as int) =~= s);
        s.len() as int
    }
}

/// The menu reply "1" to "6" names the entries in menu order; every other reply
/// (of another length, or another single character) names none.
pub proof fn lemma_menu_replies(s: Seq<char>)
    ensures
        choice_of(seq!['1']) == Some(UserChoice::AddHabit),
        choice_of(seq!['2']) == Some(UserChoice::UpdateTodaysHabits),
        choice_of(seq!['3']) == Some(UserChoice::ViewProgress),
        choice_of(seq!['4']) == Some(UserChoice::DeleteHabit),
        choice_of(seq!['5']) == Some(UserChoice::ViewDetailedStats),
        choice_of(seq!['6']) == Some(UserChoice::ExitProgram),
        s.len() != 1 ==> choice_of(s) is None,
        s.len() == 1 && !('1' <= s[0] <= '6') ==> choice_of(s) is None,
{
    assert(seq!['1'][0] == '1' && seq!['2'][0] == '2' && seq!['3'][0] == '3');
    assert(seq!['4'][0] == '4' && seq!['5'][0] == '5' && seq!['6'][0] == '6');
    if s.len() == 1 && !('1' <= s[0] <= '6') {
        assert(s != seq!['1'] && s != seq!['2'] && s != seq!['3']);
        assert(s != seq!['4'] && s != seq!['5'] && s != seq!['6']);
    }
    assert(seq!['1'].len() == 1 && seq!['2'].len() == 1 && seq!['3'].len() == 1);
    assert(seq!['4'].len() == 1 && seq!['5'].len() == 1 && seq!['6'].len() == 1);
}

/// A yes/no reply of one character means yes for 'y' or 'Y', no for 'n' or 'N',
/// and asks again for any other character; a reply of another length is invalid.
pub proof fn lemma_yes_no_replies(s: Seq<char>)
    ensures
        s.len() != 1 ==> yes_no_meaning(s) is Err,
        s.len() == 1 && (s[0] == 'y' || s[0] == 'Y') ==> yes_no_meaning(s) == Ok::<
            Option<bool>,
            (),
        >(Some(true)),
        s.len() == 1 && (s[0] == 'n' || s[0] == 'N') ==> yes_no_meaning(s) == Ok::<
            Option<bool>,
            (),
        >(Some(false)),
        s.len() == 1 && s[0] != 'y' && s[0] != 'Y' && s[0] != 'n' && s[0] != 'N' ==> yes_no_meaning(
            s,
        ) == Ok::<Option<bool>, ()>(None),
{
}

} // verus!
