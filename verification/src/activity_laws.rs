//! What holds of a monitor over several steps.

use vstd::prelude::*;

use crate::activity;
use crate::activity::{MonitorState, PollStep, PROMPT_SUBMISSION_GRACE};
use crate::process;
use crate::process::{CodexProcess, ProcessInfo};
use crate::split;
use crate::transcript;
use crate::transcript::{TranscriptEvent, NEWLINE};

verus! {

/// Lines that are read in two parts do what they do at once.
pub proof fn lemma_lines_in_parts(
    state: MonitorState,
    first: Seq<Seq<u8>>,
    second: Seq<Seq<u8>>,
)
    ensures
        state.after_lines(first + second) == state.after_lines(first).after_lines(second),
    decreases second.len(),
{
    if second.len() == 0 {
        assert(first + second =~= first);
    } else {
        lemma_lines_in_parts(state, first, second.drop_last());
        assert((first + second).drop_last() =~= first + second.drop_last());
        assert((first + second).last() == second.last());
    }
}

/// A transcript tells the same however its growth is cut into pieces: reading two
/// pieces one after the other leaves what reading them at once leaves.
pub proof fn lemma_data_in_parts(state: MonitorState, first: Seq<u8>, second: Seq<u8>)
    ensures
        state.after_data(first + second) == state.after_data(first).after_data(second),
{
    let unread = state.pending + first;
    let between = state.after_data(first);
    let lines = split::ended_pieces(unread, NEWLINE);
    let rest = split::open_piece(unread, NEWLINE);
    let more = split::ended_pieces(rest + second, NEWLINE);
    assert(state.pending + (first + second) =~= unread + second);
    split::lemma_pieces_of_concatenation(unread, second, NEWLINE);
    split::lemma_pieces_shape(rest + second, NEWLINE);
    assert(split::ended_pieces(unread + second, NEWLINE) =~= lines + more);
    assert(split::open_piece(unread + second, NEWLINE) == split::open_piece(
        rest + second,
        NEWLINE,
    ));
    lemma_lines_in_parts(state, lines, more);
    activity::lemma_lines_change_only_the_prompt(between, state.after_lines(lines), more);
    activity::lemma_lines_change_only_the_prompt(
        state.after_lines(lines),
        state.after_lines(lines),
        more,
    );
    assert(state.after_data(first + second) =~= between.after_data(second));
}

/// The state once a transcript that holds `content` was measured and, where it is not as
/// large as what was read of it, read to its end.
pub open spec fn with_content(state: MonitorState, content: Seq<u8>) -> MonitorState {
    let measured = activity::with_size(state, Some(content.len() as u64));
    if content.len() == measured.offset {
        measured
    } else {
        activity::with_data(measured, Some(content.skip(measured.offset as int)))
    }
}

/// What reading a transcript to its end leaves, when it is no smaller than what was
/// read of it: all of it was read, what waits for the rest of its line is what stands
/// behind the last line break, and reading it once more changes nothing.
pub proof fn lemma_content_is_read_to_its_end(state: MonitorState, content: Seq<u8>)
    requires
        state.wf(),
        state.offset <= content.len() <= u64::MAX,
    ensures
        ({
            let after = with_content(state, content);
            let unread = state.pending + content.skip(state.offset as int);
            &&& after == state.after_data(content.skip(state.offset as int))
            &&& after.offset == content.len()
            &&& after.pending == unread.skip(unread.len() - after.pending.len())
            &&& !after.pending.contains(NEWLINE)
            &&& after.pending.len() < unread.len() ==> unread[unread.len() - after.pending.len()
                - 1] == NEWLINE
            &&& with_content(after, content) == after
        }),
{
    let data = content.skip(state.offset as int);
    split::lemma_open_piece(state.pending + data, NEWLINE);
    activity::lemma_lines_change_only_the_prompt(
        state,
        state,
        split::ended_pieces(state.pending + data, NEWLINE),
    );
    if data.len() == 0 {
        assert(state.pending + data =~= state.pending);
        split::lemma_pieces_without_separator(state.pending, NEWLINE);
        assert(split::ended_pieces(state.pending, NEWLINE) =~= Seq::empty());
        assert(state.after_data(data) =~= state);
    }
}

/// A transcript that is read while it grows, and again when it has grown, leaves what
/// reading it once leaves when it has grown, also where a line was cut in two.
pub proof fn lemma_growing_transcript_is_read_alike(
    state: MonitorState,
    first: Seq<u8>,
    second: Seq<u8>,
)
    requires
        state.wf(),
        state.offset <= first.len(),
        first.len() + second.len() <= u64::MAX,
    ensures
        with_content(with_content(state, first), first + second) == with_content(
            state,
            first + second,
        ),
{
    let offset = state.offset as int;
    let between = with_content(state, first);
    lemma_content_is_read_to_its_end(state, first);
    activity::lemma_data_keeps_the_invariant(state, first.skip(offset));
    lemma_content_is_read_to_its_end(between, first + second);
    lemma_content_is_read_to_its_end(state, first + second);
    assert((first + second).skip(first.len() as int) =~= second);
    assert((first + second).skip(offset) =~= first.skip(offset) + second);
    lemma_data_in_parts(state, first.skip(offset), second);
}

/// Every step keeps the invariant of a monitor: what waits for the rest of its line
/// holds no line break and was read from the transcript.
pub proof fn lemma_steps_keep_the_invariant(
    state: MonitorState,
    process: (i32, i128),
    path: Option<Seq<u8>>,
    size: u64,
    data: Seq<u8>,
    now: u128,
)
    requires
        state.wf(),
    ensures
        MonitorState::fresh(None).wf(),
        MonitorState::fresh(Some(process)).wf(),
        state.following(process).wf(),
        state.submitted(process, now).wf(),
        (MonitorState { transcript: path, ..state }).wf(),
        state.measured(size).wf(),
        state.after_data(data).wf(),
        state.at_time(now).wf(),
{
    activity::lemma_data_keeps_the_invariant(state, data);
}

/// Whether some line tells that Codex has begun to handle a prompt.
pub open spec fn any_start(lines: Seq<Seq<u8>>) -> bool {
    exists|i: int|
        0 <= i < lines.len() && transcript::event_of_line(#[trigger] lines[i])
            == TranscriptEvent::Started
}

/// The last event that lines tell of.
pub open spec fn last_event(lines: Seq<Seq<u8>>) -> TranscriptEvent
    decreases lines.len(),
{
    if lines.len() == 0 {
        TranscriptEvent::Other
    } else if transcript::event_of_line(lines.last()) != TranscriptEvent::Other {
        transcript::event_of_line(lines.last())
    } else {
        last_event(lines.drop_last())
    }
}

/// The last event decides whether a prompt is running. A beginning says that one is.
/// An ending says that none is, unless a submitted prompt still waits for its
/// beginning. Lines without an event change nothing.
pub proof fn lemma_last_event_decides(state: MonitorState, lines: Seq<Seq<u8>>)
    ensures
        any_start(lines) ==> state.after_lines(lines).deadline is None,
        !any_start(lines) ==> state.after_lines(lines).deadline == state.deadline,
        last_event(lines) == TranscriptEvent::Started ==> state.after_lines(lines).running,
        last_event(lines) == TranscriptEvent::Ended && (any_start(lines) || state.deadline is None)
            ==> !state.after_lines(lines).running,
        last_event(lines) == TranscriptEvent::Other || (!any_start(lines) && state.deadline is Some)
            ==> state.after_lines(lines) == state,
    decreases lines.len(),
{
    if lines.len() > 0 {
        let before = lines.drop_last();
        lemma_last_event_decides(state, before);
        if any_start(before) {
            let i = choose|i: int|
                0 <= i < before.len() && transcript::event_of_line(#[trigger] before[i])
                    == TranscriptEvent::Started;
            assert(lines[i] == before[i]);
        }
        if any_start(lines) {
            let i = choose|i: int|
                0 <= i < lines.len() && transcript::event_of_line(#[trigger] lines[i])
                    == TranscriptEvent::Started;
            if i < before.len() {
                assert(before[i] == lines[i]);
            }
        }
        assert(lines[lines.len() - 1] == lines.last());
        if last_event(lines) == TranscriptEvent::Other {
            lemma_no_event_is_no_start(before);
        }
    }
}

/// Where lines tell of no event, they tell of no beginning.
proof fn lemma_no_event_is_no_start(lines: Seq<Seq<u8>>)
    requires
        last_event(lines) == TranscriptEvent::Other,
    ensures
        !any_start(lines),
    decreases lines.len(),
{
    if lines.len() > 0 {
        lemma_no_event_is_no_start(lines.drop_last());
        if any_start(lines) {
            let i = choose|i: int|
                0 <= i < lines.len() && transcript::event_of_line(#[trigger] lines[i])
                    == TranscriptEvent::Started;
            assert(lines.drop_last()[i] == lines[i]);
        }
    }
}

/// What a monitor is told while it finds out whether a prompt is running.
pub struct Observation {
    /// The Codex process below the terminal.
    pub found: Option<CodexProcess>,
    /// Where a search finds its transcript.
    pub searched: Option<Seq<u8>>,
    /// How large the transcript is.
    pub size: Option<u64>,
    /// What the transcript holds from the offset on that is asked for.
    pub data: Option<Seq<u8>>,
    /// What time it is.
    pub now: u128,
}

/// The transcript is looked for where it is not known yet.
pub open spec fn with_transcript(state: MonitorState, searched: Option<Seq<u8>>) -> MonitorState {
    if state.transcript is None {
        MonitorState { transcript: searched, ..state }
    } else {
        state
    }
}

/// The transcript is measured where there is one, and read where it is not as large as
/// what was read of it.
pub open spec fn with_growth(
    state: MonitorState,
    size: Option<u64>,
    data: Option<Seq<u8>>,
) -> MonitorState {
    match (state.transcript, size) {
        (Some(_), Some(length)) => {
            let measured = state.measured(length);
            if length != measured.offset {
                activity::with_data(measured, data)
            } else {
                measured
            }
        },
        _ => state,
    }
}

/// The state once a monitor has been told everything it asked for.
pub open spec fn polled(state: MonitorState, told: Observation) -> MonitorState {
    match told.found {
        Some(process) => with_growth(
            with_transcript(state.following(activity::identity(process)), told.searched),
            told.size,
            told.data,
        ).at_time(told.now),
        None => MonitorState::fresh(None),
    }
}

/// The steps of a poll make it up: a monitor that is told what it asks for, step by
/// step, is left in the state of a monitor that was polled. Here `followed`, `known`,
/// `measured` and `read` are the states that the steps leave one after the other, and
/// `first`, `second` and `third` are what the monitor asks for between them. Without
/// Codex the first answer is the last.
pub proof fn lemma_steps_make_up_a_poll(
    state: MonitorState,
    told: Observation,
    followed: MonitorState,
    first: PollStep,
    known: MonitorState,
    second: PollStep,
    measured: MonitorState,
    third: PollStep,
    read: MonitorState,
)
    requires
        followed == activity::with_process(state, told.found),
        activity::begins_poll(followed, told.found, first),
        if first is FindTranscript {
            &&& known == (MonitorState { transcript: told.searched, ..followed })
            &&& activity::measures_or_reads_clock(known, second)
        } else {
            known == followed && second == first
        },
        if second is MeasureTranscript {
            &&& measured == activity::with_size(known, told.size)
            &&& activity::reads_or_reads_clock(measured, told.size, third)
        } else {
            measured == known && third == second
        },
        read == if third is ReadTranscript {
            activity::with_data(measured, told.data)
        } else {
            measured
        },
    ensures
        told.found is None ==> first == PollStep::Answer(false) && followed == polled(state, told),
        told.found is Some ==> (third is ReadTranscript || third is ReadClock) && read.at_time(
            told.now,
        ) == polled(state, told),
{
}

/// Where Codex does not run below the terminal, no prompt is running, and nothing of
/// an earlier process is remembered.
pub proof fn lemma_without_codex_nothing_runs(state: MonitorState, told: Observation)
    requires
        told.found is None,
    ensures
        !polled(state, told).running,
        polled(state, told) == MonitorState::fresh(None),
{
}

/// Where the platform tells of no processes, the monitor is inert: nothing is found
/// below any shell.
pub proof fn lemma_inert_without_processes(root: i32, found: Option<CodexProcess>)
    requires
        process::is_codex_below(Map::<i32, ProcessInfo>::empty(), root, found),
    ensures
        found is None,
{
    if let Some(known) = found {
        let table = Map::<i32, ProcessInfo>::empty();
        let depth = choose|depth: nat| process::descends(table, root, known.id, depth);
        assert(table.contains_key(known.id));
    }
}

/// A submitted prompt counts as running for five seconds, also where the transcript
/// tells of endings, as long as it tells of no beginning and is not written anew.
/// After that it does not.
pub proof fn lemma_submitted_prompt_runs_for_the_grace(
    state: MonitorState,
    codex: CodexProcess,
    submitted_at: u128,
    told: Observation,
)
    requires
        submitted_at + PROMPT_SUBMISSION_GRACE <= u128::MAX,
        told.found == Some(codex),
        told.size matches Some(length) ==> length >= state.following(
            activity::identity(codex),
        ).offset,
        told.data matches Some(bytes) ==> !any_start(
            split::ended_pieces(
                state.following(activity::identity(codex)).pending + bytes,
                NEWLINE,
            ),
        ),
    ensures
        polled(state.submitted(activity::identity(codex), submitted_at), told).running == (told.now
            <= submitted_at + PROMPT_SUBMISSION_GRACE),
{
    let waiting = state.submitted(activity::identity(codex), submitted_at);
    assert(waiting.following(activity::identity(codex)) == waiting);
    let known = with_transcript(waiting, told.searched);
    if let Some(bytes) = told.data {
        lemma_last_event_decides(known, split::ended_pieces(known.pending + bytes, NEWLINE));
    }
}

/// Where lines tell of a beginning last, they tell of a beginning.
proof fn lemma_last_start_is_a_start(lines: Seq<Seq<u8>>)
    requires
        last_event(lines) == TranscriptEvent::Started,
    ensures
        any_start(lines),
    decreases lines.len(),
{
    if transcript::event_of_line(lines.last()) == TranscriptEvent::Other {
        lemma_last_start_is_a_start(lines.drop_last());
        let i = choose|i: int|
            0 <= i < lines.drop_last().len() && transcript::event_of_line(
                #[trigger] lines.drop_last()[i],
            ) == TranscriptEvent::Started;
        assert(lines[i] == lines.drop_last()[i]);
    } else {
        assert(lines[lines.len() - 1] == lines.last());
    }
}

/// The lines that are read when the transcript of a process has grown by `data`.
pub open spec fn grown_lines(state: MonitorState, process: CodexProcess, data: Seq<u8>) -> Seq<
    Seq<u8>,
> {
    split::ended_pieces(state.following(activity::identity(process)).pending + data, NEWLINE)
}

/// Whether a monitor is told that the transcript of the process has grown by `data`.
pub open spec fn tells_growth(
    state: MonitorState,
    told: Observation,
    process: CodexProcess,
    data: Seq<u8>,
) -> bool {
    let followed = state.following(activity::identity(process));
    &&& told.found == Some(process)
    &&& followed.transcript is Some || told.searched is Some
    &&& told.size matches Some(length) && length > followed.offset
    &&& told.data == Some(data)
}

/// The lines of a transcript that has grown decide as their last event does: a prompt
/// whose beginning comes last is running at any time, and one whose ending comes last
/// is not, unless it was submitted and still waits for its beginning.
pub proof fn lemma_growth_decides(
    state: MonitorState,
    told: Observation,
    codex: CodexProcess,
    data: Seq<u8>,
)
    requires
        state.wf(),
        tells_growth(state, told, codex, data),
    ensures
        last_event(grown_lines(state, codex, data)) == TranscriptEvent::Started ==> polled(
            state,
            told,
        ).running && polled(state, told).deadline is None,
        last_event(grown_lines(state, codex, data)) == TranscriptEvent::Ended && (any_start(
            grown_lines(state, codex, data),
        ) || state.following(activity::identity(codex)).deadline is None) ==> !polled(
            state,
            told,
        ).running,
{
    let followed = state.following(activity::identity(codex));
    let known = with_transcript(followed, told.searched);
    let lines = grown_lines(state, codex, data);
    lemma_last_event_decides(known, lines);
    if last_event(lines) == TranscriptEvent::Started {
        lemma_last_start_is_a_start(lines);
    }
    if data.len() == 0 {
        assert(known.pending + data =~= known.pending);
        split::lemma_pieces_without_separator(known.pending, NEWLINE);
        assert(lines =~= Seq::empty());
    }
}

/// A transcript that is smaller than what was read of it is read like one of which
/// nothing was read, and no prompt of before counts as running.
pub proof fn lemma_smaller_transcript_is_read_anew(
    state: MonitorState,
    length: u64,
    data: Option<Seq<u8>>,
)
    requires
        state.transcript is Some,
        length < state.offset,
    ensures
        with_growth(state, Some(length), data) == with_growth(
            MonitorState { offset: 0, pending: Seq::empty(), running: false, ..state },
            Some(length),
            data,
        ),
{
}

/// An answer leaves no deadline that has passed.
pub proof fn lemma_no_deadline_stays_behind(state: MonitorState, told: Observation)
    ensures
        polled(state, told).deadline matches Some(deadline) ==> deadline >= told.now,
{
}

/// Another process below the terminal starts with nothing of the one before it, also
/// where only the starting time tells them apart.
pub proof fn lemma_another_process_starts_anew(
    state: MonitorState,
    before: (i32, i128),
    after: (i32, i128),
)
    requires
        before != after,
    ensures
        state.following(before).following(after) == MonitorState::fresh(Some(after)),
{
}

/// Reading two pieces of a transcript one after the other leaves what reading them at
/// once leaves, also where one of them is empty. What could not be read changes nothing.
pub proof fn lemma_reading_in_parts(state: MonitorState, first: Seq<u8>, second: Seq<u8>)
    ensures
        activity::with_data(state, Some(first + second)) == activity::with_data(
            activity::with_data(state, Some(first)),
            Some(second),
        ),
        activity::with_data(state, None) == state,
{
    lemma_data_in_parts(state, first, second);
    if first.len() == 0 {
        assert(first + second =~= second);
    }
    if second.len() == 0 {
        assert(first + second =~= first);
    }
}

/// A monitor goes on with the process that it follows: one with the same id and the
/// same starting time changes nothing. With any other process, of which one of the two
/// differs, it starts from nothing. Without a process it forgets everything.
pub proof fn lemma_id_and_start_tell_processes_apart(state: MonitorState, codex: CodexProcess)
    ensures
        ({
            let after = activity::with_process(state, Some(codex));
            let same = state.process matches Some(known) && known.0 == codex.id && known.1
                == codex.started_at;
            &&& same ==> after == state
            &&& !same ==> after.process == Some((codex.id, codex.started_at)) && knows_nothing(
                after,
            )
        }),
        activity::with_process(state, None).process is None,
        knows_nothing(activity::with_process(state, None)),
        MonitorState::fresh(None).process is None,
        knows_nothing(MonitorState::fresh(None)),
{
}

/// Whether a monitor has no transcript, has read nothing, waits for nothing and says
/// that no prompt is running.
pub open spec fn knows_nothing(state: MonitorState) -> bool {
    &&& state.transcript is None
    &&& state.offset == 0
    &&& state.pending.len() == 0
    &&& !state.running
    &&& state.deadline is None
}

/// A prompt that is submitted runs at once, and waits for its beginning for five
/// seconds. What was read for the same process is kept.
pub proof fn lemma_submitted_prompt_waits(state: MonitorState, codex: CodexProcess, now: u128)
    requires
        now + 5_000_000_000 <= u128::MAX,
    ensures
        ({
            let after = state.submitted(activity::identity(codex), now);
            let followed = activity::with_process(state, Some(codex));
            &&& after.running
            &&& after.deadline matches Some(deadline) && deadline == now + 5_000_000_000
            &&& after.process == Some((codex.id, codex.started_at))
            &&& after.transcript == followed.transcript
            &&& after.offset == followed.offset
            &&& after.pending == followed.pending
        }),
{
}

/// A transcript that is no smaller than what was read of it changes nothing by its size.
/// One that is smaller was written anew: nothing of it counts as read and no prompt as
/// running, while a submitted prompt goes on waiting. One that could not be opened
/// changes nothing.
pub proof fn lemma_size_tells_a_new_transcript(state: MonitorState, length: u64)
    ensures
        ({
            let after = activity::with_size(state, Some(length));
            &&& length >= state.offset ==> after == state
            &&& length < state.offset ==> after.offset == 0 && after.pending.len() == 0
                && !after.running
            &&& after.deadline == state.deadline
            &&& after.process == state.process
            &&& after.transcript == state.transcript
        }),
        activity::with_size(state, None) == state,
{
}

/// Time takes away exactly the prompts whose deadline lies before it. A prompt without a
/// deadline runs on at any time.
pub proof fn lemma_only_a_passed_deadline_ends_a_prompt(state: MonitorState, now: u128)
    ensures
        ({
            let after = state.at_time(now);
            let passed = state.deadline matches Some(deadline) && deadline < now;
            &&& after.running <==> state.running && !passed
            &&& after.deadline == if passed {
                None
            } else {
                state.deadline
            }
            &&& after.process == state.process
            &&& after.transcript == state.transcript
            &&& after.offset == state.offset
            &&& after.pending == state.pending
        }),
{
}

/// Once an answer was given, a later time without other news can end a prompt, but
/// nothing begins one.
pub proof fn lemma_time_begins_no_prompt(state: MonitorState, first: u128, second: u128)
    requires
        first <= second,
    ensures
        state.at_time(second).running ==> state.at_time(first).running,
        state.at_time(first).at_time(second).running == state.at_time(second).running,
{
}

/// What a monitor asks for. Without Codex it asks for nothing, and no prompt is running.
/// With Codex it asks for the transcript of that very process as long as it knows none,
/// and then for the size of that very transcript. Where there is no transcript it asks
/// for the time. It asks for what the transcript holds from where it stopped reading,
/// exactly if the size is another.
pub proof fn lemma_what_is_asked_for(
    state: MonitorState,
    found: Option<CodexProcess>,
    size: Option<u64>,
    first: PollStep,
    second: PollStep,
    third: PollStep,
)
    requires
        activity::begins_poll(state, found, first),
        activity::measures_or_reads_clock(state, second),
        activity::reads_or_reads_clock(state, size, third),
    ensures
        found is None ==> first == PollStep::Answer(false),
        found matches Some(codex) ==> match state.transcript {
            Some(path) => first matches PollStep::MeasureTranscript(named) && named@ == path,
            None => first == PollStep::FindTranscript(codex),
        },
        state.transcript matches Some(path) ==> (second matches PollStep::MeasureTranscript(named)
            && named@ == path),
        state.transcript is None ==> second is ReadClock,
        size matches Some(length) && length != state.offset ==> (
        third matches PollStep::ReadTranscript(offset) && offset == state.offset),
        size matches Some(length) && length == state.offset ==> third is ReadClock,
        size is None ==> third is ReadClock,
{
}

/// Bytes that are handed to a monitor are taken as they are.
pub proof fn lemma_bytes_are_taken_as_they_are(bytes: Vec<u8>)
    ensures
        activity::optional_bytes(Some(bytes)) == Some(bytes@),
        activity::optional_bytes(None) is None,
{
}

} // verus!
