//! What the words in a transcript say, and which transcript belongs to a process.

use serde_json::Value;
use vstd::prelude::*;

use crate::activity;
use crate::activity::MonitorState;
use crate::json;
use crate::process::CodexProcess;
use crate::split;
use crate::text;
use crate::text_laws;
use crate::transcript;
use crate::transcript::{DateDirectory, TranscriptEvent, NEWLINE};

verus! {

/// Whether an object has a member of this name that is this string.
pub open spec fn has_word(object: Value, name: Seq<char>, word: Seq<char>) -> bool {
    &&& json::json_members(object).contains_key(name)
    &&& json::json_string(json::json_members(object)[name]) == Some(word)
}

/// Whether an object has a payload with a member of this name that is this string.
pub open spec fn has_payload_word(object: Value, name: Seq<char>, word: Seq<char>) -> bool {
    &&& json::json_members(object).contains_key("payload"@)
    &&& has_word(json::json_members(object)["payload"@], name, word)
}

/// Whether a line is an object of the type `event_msg` whose payload has this type.
pub open spec fn reports(line: Seq<u8>, word: Seq<char>) -> bool {
    &&& line.len() > 0
    &&& json::json_value(line) matches Some(object) && has_word(object, "type"@, "event_msg"@)
        && has_payload_word(object, "type"@, word)
}

/// The words that tell of events are different words.
proof fn lemma_words_differ()
    ensures
        "task_started"@ != "task_complete"@,
        "task_started"@ != "turn_aborted"@,
{
    reveal_strlit("task_started");
    reveal_strlit("task_complete");
    reveal_strlit("turn_aborted");
    assert("task_started"@.len() == 12);
    assert("task_complete"@.len() == 13);
    assert("task_started"@[1] == 'a');
    assert("turn_aborted"@[1] == 'u');
}

/// The types of an envelope decide its event. A prompt has begun exactly if the type is
/// `event_msg` and that of the payload is `task_started`. It has ended exactly if that
/// of the payload is `task_complete` or `turn_aborted`. With any other type, or where
/// one is missing, nothing has happened.
pub proof fn lemma_types_decide_the_event(kind: Option<&str>, payload_kind: Option<&str>)
    ensures
        ({
            let event = transcript::event_of_types(
                transcript::optional_text(kind),
                transcript::optional_text(payload_kind),
            );
            let is_event = kind matches Some(word) && word@ == "event_msg"@;
            let begins = payload_kind matches Some(word) && word@ == "task_started"@;
            let ends = payload_kind matches Some(word) && (word@ == "task_complete"@ || word@
                == "turn_aborted"@);
            &&& event == TranscriptEvent::Started <==> is_event && begins
            &&& event == TranscriptEvent::Ended <==> is_event && ends
            &&& event == TranscriptEvent::Other <==> !is_event || (!begins && !ends)
        }),
{
    lemma_words_differ();
}

/// What a whole line does to a monitor that reads it, by the words in the line. The
/// line is what waited for its end and what was read of it now.
///
/// `task_started` says that a prompt is running, and that it waits for nothing.
/// `task_complete` and `turn_aborted` say that none is running, unless a submitted
/// prompt still waits for its beginning. Nothing else begins or ends a prompt: with
/// every other word, and where the line is no JSON or lacks a word, what was running is
/// running and what waited waits.
pub proof fn lemma_words_of_a_line_decide(state: MonitorState, data: Seq<u8>)
    requires
        state.wf(),
        !data.contains(NEWLINE),
    ensures
        ({
            let line = state.pending + data;
            let after = activity::with_data(state, Some(data.push(NEWLINE)));
            let begins = reports(line, "task_started"@);
            let ends = reports(line, "task_complete"@) || reports(line, "turn_aborted"@);
            &&& after.process == state.process
            &&& after.transcript == state.transcript
            &&& after.offset == state.offset + data.len() + 1
            &&& after.pending == Seq::<u8>::empty()
            &&& begins ==> after.running && after.deadline is None
            &&& !begins ==> after.deadline == state.deadline
            &&& ends && state.deadline is None ==> !after.running
            &&& ends && state.deadline is Some ==> after.running == state.running
            &&& !begins && !ends ==> after.running == state.running
        }),
{
    let line = state.pending + data;
    let grown = data.push(NEWLINE);
    lemma_words_differ();
    assert(!line.contains(NEWLINE)) by {
        if line.contains(NEWLINE) {
            let i = choose|i: int| 0 <= i < line.len() && line[i] == NEWLINE;
            if i < state.pending.len() {
                assert(state.pending[i] == NEWLINE);
            } else {
                assert(data[i - state.pending.len()] == NEWLINE);
            }
        }
    }
    assert(state.pending + grown =~= line.push(NEWLINE) + Seq::empty());
    split::lemma_first_piece(line, Seq::empty(), NEWLINE);
    split::lemma_pieces_without_separator(Seq::empty(), NEWLINE);
    let cut = split::pieces(state.pending + grown, NEWLINE);
    assert(cut =~= seq![line, Seq::empty()]);
    let lines = split::ended_pieces(state.pending + grown, NEWLINE);
    assert(lines =~= seq![line]);
    assert(lines.drop_last() =~= Seq::empty());
    assert(state.after_lines(lines.drop_last()) == state);
    assert(lines.last() == line);
    if line.len() > 0 {
        if let Some(object) = json::json_value(line) {
            lemma_word_of_type(object);
        }
    }
}

/// Which words an object holds under its type, and under the type of its payload.
proof fn lemma_word_of_type(object: Value)
    ensures
        forall|word: Seq<char>| #[trigger]
            has_word(object, "type"@, word) <==> json::string_member(object, "type"@) == Some(word),
        forall|word: Seq<char>| #[trigger]
            has_payload_word(object, "type"@, word) <==> transcript::payload_string(
                object,
                "type"@,
            ) == Some(word),
{
}

/// What a monitor reads of a line whose end is missing only waits for the rest.
pub proof fn lemma_part_of_a_line_waits(state: MonitorState, data: Seq<u8>)
    requires
        state.wf(),
        !data.contains(NEWLINE),
    ensures
        activity::with_data(state, Some(data)) == (MonitorState {
            offset: state.offset + data.len(),
            pending: state.pending + data,
            ..state
        }),
{
    let unread = state.pending + data;
    assert(!unread.contains(NEWLINE)) by {
        if unread.contains(NEWLINE) {
            let i = choose|i: int| 0 <= i < unread.len() && unread[i] == NEWLINE;
            if i < state.pending.len() {
                assert(state.pending[i] == NEWLINE);
            } else {
                assert(data[i - state.pending.len()] == NEWLINE);
            }
        }
    }
    split::lemma_pieces_without_separator(unread, NEWLINE);
    assert(split::ended_pieces(unread, NEWLINE) =~= Seq::empty());
    if data.len() == 0 {
        assert(unread =~= state.pending);
    }
}

/// Whether a head begins with this line: it is the line, or the line and a line break
/// stand at its beginning.
pub open spec fn begins_with_line(head: Seq<u8>, line: Seq<u8>) -> bool {
    head == line || (line.len() < head.len() && head.take(line.len() as int) == line
        && head[line.len() as int] == NEWLINE)
}

/// Whether a line is an object of the type `session_meta` whose payload has the working
/// directory `path`.
pub open spec fn names_directory(line: Seq<u8>, path: Seq<char>) -> bool {
    json::json_value(line) matches Some(object) && has_word(object, "type"@, "session_meta"@)
        && has_payload_word(object, "cwd"@, path)
}

/// A transcript names the directory that its first line names, however long the line
/// is and whatever follows it: the string `cwd` of the payload of an object of the type
/// `session_meta`. Where the first line is anything else, the transcript names none.
pub proof fn lemma_first_line_names_the_directory(head: Seq<u8>, line: Seq<u8>)
    requires
        !line.contains(NEWLINE),
        begins_with_line(head, line),
    ensures
        forall|path: Seq<char>| #[trigger]
            names_directory(line, path) <==> transcript::directory_of_transcript(head) == Some(
                path,
            ),
        transcript::directory_of_transcript(head) is None <==> forall|path: Seq<char>|
            !(#[trigger] names_directory(line, path)),
{
    if head == line {
        split::lemma_pieces_without_separator(line, NEWLINE);
    } else {
        let rest = head.skip(line.len() as int + 1);
        assert(head =~= line.push(NEWLINE) + rest);
        split::lemma_first_piece(line, rest, NEWLINE);
    }
    assert(split::pieces(head, NEWLINE)[0] == line);
    if let Some(object) = json::json_value(line) {
        lemma_directory_of_payload(object);
        if transcript::directory_of_transcript(head) is Some {
            let path = transcript::directory_of_transcript(head).unwrap();
            assert(names_directory(line, path));
        }
    }
}

proof fn lemma_directory_of_payload(object: Value)
    ensures
        forall|word: Seq<char>| #[trigger]
            has_word(object, "type"@, word) <==> json::string_member(object, "type"@) == Some(word),
        forall|path: Seq<char>| #[trigger]
            has_payload_word(object, "cwd"@, path) <==> transcript::payload_string(
                object,
                "cwd"@,
            ) == Some(path),
{
}

/// What stands in a first line decides what directory it names: the directory of the
/// payload, exactly if the type is `session_meta`.
pub proof fn lemma_session_names_its_directory(kind: Option<&str>, payload_directory: Option<&str>)
    ensures
        ({
            let named = transcript::session_directory(
                transcript::optional_text(kind),
                transcript::optional_text(payload_directory),
            );
            let is_session = kind matches Some(word) && word@ == "session_meta"@;
            &&& payload_directory matches Some(path) ==> named == if is_session {
                Some(path@)
            } else {
                None
            }
            &&& payload_directory is None ==> named is None
        }),
{
}

/// The directory of a date is spelled by the year in at least four digits, and the
/// month and the day in at least two. Each is read back as the number.
pub proof fn lemma_date_is_read_back(year: nat, month: nat, day: nat)
    ensures
        ({
            let names = transcript::date_names(year as int, month as int, day as int);
            &&& text_laws::spelled_number(names.0) == year
            &&& text_laws::spelled_number(names.1) == month
            &&& text_laws::spelled_number(names.2) == day
            &&& names.0.len() >= 4 && (names.0.len() > 4 ==> names.0[0] != '0')
            &&& names.1.len() >= 2 && (names.1.len() > 2 ==> names.1[0] != '0')
            &&& names.2.len() >= 2 && (names.2.len() > 2 ==> names.2[0] != '0')
        }),
{
    text_laws::lemma_padded_number_is_read_back(year, 4);
    text_laws::lemma_padded_number_is_read_back(month, 2);
    text_laws::lemma_padded_number_is_read_back(day, 2);
}

/// A year, month or day below zero is spelled by a minus sign and the number without it,
/// which has one digit less to fill.
pub proof fn lemma_date_below_zero(year: int, month: int, day: int)
    ensures
        ({
            let names = transcript::date_names(year, month, day);
            &&& year < 0 ==> names.0 == seq!['-'] + text::zero_padded_digits(-year, 3)
            &&& month < 0 ==> names.1 == seq!['-'] + text::zero_padded_digits(-month, 1)
            &&& day < 0 ==> names.2 == seq!['-'] + text::zero_padded_digits(-day, 1)
        }),
{
    if year < 0 {
        text_laws::lemma_minus_stands_before_the_zeros(year, 4);
    }
    if month < 0 {
        text_laws::lemma_minus_stands_before_the_zeros(month, 2);
    }
    if day < 0 {
        text_laws::lemma_minus_stands_before_the_zeros(day, 2);
    }
}

/// The names of a directory.
pub open spec fn names_of(date: DateDirectory) -> (Seq<char>, Seq<char>, Seq<char>) {
    (date.year@, date.month@, date.day@)
}

/// The directory of the starting day is searched first, if it is known, and that of
/// today last, if it is known. No other is searched, and none twice.
pub proof fn lemma_days_are_searched_once(
    started: Option<DateDirectory>,
    today: Option<DateDirectory>,
)
    ensures
        ({
            let dates = transcript::dates_to_search(
                transcript::optional_date(started),
                transcript::optional_date(today),
            );
            &&& dates.no_duplicates()
            &&& started matches Some(date) ==> dates.len() > 0 && dates[0] == names_of(date)
            &&& today matches Some(date) ==> dates.len() > 0 && dates[dates.len() - 1] == names_of(
                date,
            )
            &&& dates.len() > 0 ==> started is Some || today is Some
            &&& dates.len() > 1 ==> started is Some && today is Some && dates.len() == 2
        }),
{
}

/// Whether candidate `i` is one that no other takes precedence over: none was written
/// later, and none that was found behind it was written at the same time.
pub open spec fn is_last_written(candidates: Seq<(Seq<u8>, i128)>, i: int) -> bool {
    &&& 0 <= i < candidates.len()
    &&& forall|j: int| 0 <= j < candidates.len() ==> (#[trigger] candidates[j]).1 <= candidates[i].1
    &&& forall|j: int| i < j < candidates.len() ==> (#[trigger] candidates[j]).1 < candidates[i].1
}

/// The transcript of a process is the candidate that was written last of all, if that
/// was no earlier than five minutes before the process started. Otherwise there is none,
/// whether or not a session is resumed. This leaves out starting times so early that
/// there is no time five minutes before them.
pub proof fn lemma_last_written_is_chosen(
    candidates: Seq<(Seq<u8>, i128)>,
    started_at: i128,
    resumed: bool,
    i: int,
)
    requires
        started_at - 300_000_000_000 >= i128::MIN,
        is_last_written(candidates, i),
    ensures
        transcript::transcript_of(candidates, started_at, resumed) == if candidates[i].1
            >= started_at - 300_000_000_000 {
            Some(candidates[i].0)
        } else {
            None
        },
{
    transcript::lemma_resuming_adds_no_transcript(candidates, started_at, resumed);
    lemma_latest_is_last_written(candidates, started_at - 300_000_000_000, i);
}

/// Where a process started so early that there is no time five minutes before that, a
/// transcript counts that was written at the epoch or later, or since the process started
/// if it resumes a session. The one that was written last of all is chosen.
pub proof fn lemma_last_written_counts_since_the_epoch(
    candidates: Seq<(Seq<u8>, i128)>,
    started_at: i128,
    resumed: bool,
    i: int,
)
    requires
        started_at - 300_000_000_000 < i128::MIN,
        is_last_written(candidates, i),
    ensures
        transcript::transcript_of(candidates, started_at, resumed) == if candidates[i].1 >= 0 || (
        resumed && candidates[i].1 >= started_at) {
            Some(candidates[i].0)
        } else {
            None
        },
{
    lemma_latest_is_last_written(candidates, 0, i);
    lemma_latest_is_last_written(candidates, started_at as int, i);
}

/// The latest candidate since some time is the one that was written last of all, if that
/// was not before.
proof fn lemma_latest_is_last_written(candidates: Seq<(Seq<u8>, i128)>, since: int, i: int)
    requires
        is_last_written(candidates, i),
    ensures
        transcript::latest_since(candidates, since) == if candidates[i].1 >= since {
            Some(candidates[i].0)
        } else {
            None
        },
{
    if candidates[i].1 >= since {
        assert(transcript::is_latest_since(candidates, since, i));
        let chosen = choose|j: int| transcript::is_latest_since(candidates, since, j);
        assert(candidates[chosen].1 <= candidates[i].1);
        assert(candidates[i].1 <= candidates[chosen].1);
    } else {
        assert forall|j: int| !transcript::is_latest_since(candidates, since, j) by {
            if transcript::is_latest_since(candidates, since, j) {
                assert(candidates[j].1 <= candidates[i].1);
            }
        }
    }
}

/// Where there are candidates, one of them was written last. Where there are none, no
/// transcript is chosen.
pub proof fn lemma_one_was_written_last(
    candidates: Seq<(Seq<u8>, i128)>,
    started_at: i128,
    resumed: bool,
)
    ensures
        candidates.len() > 0 ==> exists|i: int| is_last_written(candidates, i),
        candidates.len() == 0 ==> transcript::transcript_of(
            candidates,
            started_at,
            resumed,
        ) is None,
    decreases candidates.len(),
{
    if candidates.len() > 1 {
        let before = candidates.drop_last();
        let last = candidates.len() - 1;
        lemma_one_was_written_last(before, started_at, resumed);
        let b = choose|i: int| is_last_written(before, i);
        assert forall|j: int| 0 <= j < last implies (#[trigger] candidates[j]).1
            <= candidates[b].1 && (j > b ==> candidates[j].1 < candidates[b].1) by {
            assert(before[j].1 <= before[b].1);
        }
        if candidates[last].1 >= candidates[b].1 {
            assert(is_last_written(candidates, last));
        } else {
            assert(is_last_written(candidates, b));
        }
    } else if candidates.len() == 1 {
        assert(is_last_written(candidates, 0));
    }
}

/// Whether a process resumes a session does not depend on where the word stands: it
/// does exactly if one of its arguments is `resume`, whatever stands before and after.
pub proof fn lemma_resume_may_stand_anywhere(
    process: CodexProcess,
    before: Seq<String>,
    word: String,
    after: Seq<String>,
)
    requires
        process.arguments@ == before.push(word) + after,
    ensures
        word@ == "resume"@ ==> transcript::resumes(process),
        transcript::resumes(process) ==> exists|argument: String|
            process.arguments@.contains(argument) && #[trigger] argument@ == "resume"@,
{
    assert(process.arguments@[before.len() as int] == word);
    if transcript::resumes(process) {
        let i = choose|i: int|
            0 <= i < process.arguments@.len() && (#[trigger] process.arguments@[i])@ == "resume"@;
        assert(process.arguments@.contains(process.arguments@[i]));
    }
}

} // verus!
