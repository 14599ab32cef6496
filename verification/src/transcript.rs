//! Reading Codex's session transcripts and choosing the one of a process.

use vstd::prelude::*;

use crate::json;
use crate::process::CodexProcess;
use crate::split;
use crate::text;

verus! {

/// How many bytes at the start of a transcript are read for its first line.
pub const TRANSCRIPT_READ_LIMIT: usize = 256 * 1024;

/// How long before its process a transcript may have been written last, in
/// nanoseconds: five minutes.
pub const RECENT_WINDOW: i128 = 300_000_000_000;

/// The byte that ends a line.
pub const NEWLINE: u8 = 10;

/// What a line of a transcript says about the prompt.
#[derive(Clone, Copy, Debug, PartialEq, Eq, Structural)]
pub enum TranscriptEvent {
    /// Codex has begun to handle a prompt.
    Started,
    /// Codex has finished with a prompt, or the prompt was aborted.
    Ended,
    /// Nothing.
    Other,
}

/// The characters of a text that may be missing.
pub open spec fn optional_text(optional: Option<&str>) -> Option<Seq<char>> {
    match optional {
        Some(present) => Some(present@),
        None => None,
    }
}

/// The event of an envelope whose type is `kind` and whose payload has the type
/// `payload_kind`.
pub open spec fn event_of_types(
    kind: Option<Seq<char>>,
    payload_kind: Option<Seq<char>>,
) -> TranscriptEvent {
    if kind != Some("event_msg"@) {
        TranscriptEvent::Other
    } else if payload_kind == Some("task_started"@) {
        TranscriptEvent::Started
    } else if payload_kind == Some("task_complete"@) || payload_kind == Some("turn_aborted"@) {
        TranscriptEvent::Ended
    } else {
        TranscriptEvent::Other
    }
}

/// The string under `key` in the payload of an envelope.
pub open spec fn payload_string(envelope: serde_json::Value, key: Seq<char>) -> Option<Seq<char>> {
    if json::json_members(envelope).contains_key("payload"@) {
        json::string_member(json::json_members(envelope)["payload"@], key)
    } else {
        None
    }
}

/// The event of one line of a transcript. A line that is empty or no JSON is none.
pub open spec fn event_of_line(line: Seq<u8>) -> TranscriptEvent {
    if line.len() == 0 {
        TranscriptEvent::Other
    } else {
        match json::json_value(line) {
            Some(envelope) => event_of_types(
                json::string_member(envelope, "type"@),
                payload_string(envelope, "type"@),
            ),
            None => TranscriptEvent::Other,
        }
    }
}

fn is_word(optional: Option<&str>, word: &str) -> (same: bool)
    ensures
        same == (optional_text(optional) == Some(word@)),
{
    match optional {
        Some(present) => text::same_text(present, word),
        None => false,
    }
}

/// The event of an envelope, from the types that stand in it.
pub fn event_from_types(kind: Option<&str>, payload_kind: Option<&str>) -> (event: TranscriptEvent)
    ensures
        event == event_of_types(optional_text(kind), optional_text(payload_kind)),
{
    if !is_word(kind, "event_msg") {
        TranscriptEvent::Other
    } else if is_word(payload_kind, "task_started") {
        TranscriptEvent::Started
    } else if is_word(payload_kind, "task_complete") || is_word(payload_kind, "turn_aborted") {
        TranscriptEvent::Ended
    } else {
        TranscriptEvent::Other
    }
}

fn payload_text<'a>(envelope: &'a serde_json::Value, key: &str) -> (found: Option<&'a str>)
    ensures
        optional_text(found) == payload_string(*envelope, key@),
{
    match json::member(envelope, "payload") {
        Some(payload) => json::member_string(payload, key),
        None => None,
    }
}

/// The event of one line of a transcript.
pub fn read_event(line: &[u8]) -> (event: TranscriptEvent)
    ensures
        event == event_of_line(line@),
{
    if line.len() == 0 {
        return TranscriptEvent::Other;
    }
    match json::parse(line) {
        Some(envelope) => event_from_types(
            json::member_string(&envelope, "type"),
            payload_text(&envelope, "type"),
        ),
        None => TranscriptEvent::Other,
    }
}

/// The directory that a first line names: the directory of its payload, if the line
/// is the description of a session.
pub open spec fn session_directory(
    kind: Option<Seq<char>>,
    payload_directory: Option<Seq<char>>,
) -> Option<Seq<char>> {
    if kind == Some("session_meta"@) {
        payload_directory
    } else {
        None
    }
}

/// The working directory that the beginning of a transcript names.
pub open spec fn directory_of_transcript(head: Seq<u8>) -> Option<Seq<char>> {
    match json::json_value(split::pieces(head, NEWLINE)[0]) {
        Some(envelope) => session_directory(
            json::string_member(envelope, "type"@),
            payload_string(envelope, "cwd"@),
        ),
        None => None,
    }
}

/// The directory that a first line names, from what stands in it.
pub fn directory_from_types(kind: Option<&str>, payload_directory: Option<&str>) -> (directory:
    Option<String>)
    ensures
        match directory {
            Some(path) => session_directory(optional_text(kind), optional_text(payload_directory))
                == Some(path@),
            None => session_directory(optional_text(kind), optional_text(payload_directory)) is None,
        },
{
    if !is_word(kind, "session_meta") {
        return None;
    }
    match payload_directory {
        Some(path) => Some(path.to_owned()),
        None => None,
    }
}

/// The working directory that the beginning of a transcript names.
pub fn transcript_working_directory(head: &[u8]) -> (directory: Option<String>)
    ensures
        match directory {
            Some(path) => directory_of_transcript(head@) == Some(path@),
            None => directory_of_transcript(head@) is None,
        },
{
    let lines = split::split_bytes(head, NEWLINE);
    assert(lines@.map_values(|piece: Vec<u8>| piece@)[0] == lines@[0]@);
    match json::parse(lines[0].as_slice()) {
        Some(envelope) => directory_from_types(
            json::member_string(&envelope, "type"),
            payload_text(&envelope, "cwd"),
        ),
        None => None,
    }
}

/// Whether a file with this extension may be a transcript.
pub fn is_transcript_extension(extension: Option<&str>) -> (transcript: bool)
    ensures
        transcript == (optional_text(extension) == Some("jsonl"@)),
{
    is_word(extension, "jsonl")
}

/// The directory below the session root that holds the transcripts of one day.
pub struct DateDirectory {
    pub year: String,
    pub month: String,
    pub day: String,
}

impl View for DateDirectory {
    type V = (Seq<char>, Seq<char>, Seq<char>);

    open spec fn view(&self) -> (Seq<char>, Seq<char>, Seq<char>) {
        (self.year@, self.month@, self.day@)
    }
}

/// The names of the year, month and day directories of a date.
pub open spec fn date_names(year: int, month: int, day: int) -> (Seq<char>, Seq<char>, Seq<char>) {
    (
        text::zero_padded_digits(year, 4),
        text::zero_padded_digits(month, 2),
        text::zero_padded_digits(day, 2),
    )
}

/// The whole seconds of a time since the Unix epoch. Nothing for a time before it.
pub fn epoch_seconds(time: i128) -> (seconds: Option<u128>)
    ensures
        match seconds {
            Some(count) => time >= 0 && count == time as int / 1_000_000_000,
            None => time < 0,
        },
{
    if time < 0 {
        None
    } else {
        Some((time / 1_000_000_000) as u128)
    }
}

/// The directory of a date that is given as the C library breaks it down: years
/// since 1900, months since January, and the day of the month.
pub fn date_directory(years_since_1900: i32, months_since_january: i32, day: i32) -> (directory:
    DateDirectory)
    requires
        years_since_1900 + 1900 <= i32::MAX,
        months_since_january < i32::MAX,
    ensures
        directory@ == date_names(years_since_1900 + 1900, months_since_january + 1, day as int),
{
    DateDirectory {
        year: text::zero_padded(years_since_1900 + 1900, 4),
        month: text::zero_padded(months_since_january + 1, 2),
        day: text::zero_padded(day, 2),
    }
}

/// The directories to search: that of the day on which the process started and that
/// of today, each where it is known, and only once if they are the same.
pub open spec fn dates_to_search(
    started: Option<(Seq<char>, Seq<char>, Seq<char>)>,
    today: Option<(Seq<char>, Seq<char>, Seq<char>)>,
) -> Seq<(Seq<char>, Seq<char>, Seq<char>)> {
    match (started, today) {
        (Some(first), Some(second)) => if first == second {
            seq![first]
        } else {
            seq![first, second]
        },
        (Some(first), None) => seq![first],
        (None, Some(second)) => seq![second],
        (None, None) => Seq::empty(),
    }
}

/// The names of a directory that may be missing.
pub open spec fn optional_date(date: Option<DateDirectory>) -> Option<
    (Seq<char>, Seq<char>, Seq<char>),
> {
    match date {
        Some(directory) => Some(directory@),
        None => None,
    }
}

/// The directories to search for the transcript of a process.
pub fn directories_to_search(started: Option<DateDirectory>, today: Option<DateDirectory>) -> (dates:
    Vec<DateDirectory>)
    ensures
        dates@.map_values(|date: DateDirectory| date@) == dates_to_search(
            optional_date(started),
            optional_date(today),
        ),
{
    let mut dates: Vec<DateDirectory> = Vec::new();
    let ghost wanted = dates_to_search(optional_date(started), optional_date(today));
    if let Some(directory) = started {
        dates.push(directory);
    }
    if let Some(directory) = today {
        let listed = dates.len() > 0 && text::same_text(
            dates[0].year.as_str(),
            directory.year.as_str(),
        ) && text::same_text(dates[0].month.as_str(), directory.month.as_str()) && text::same_text(
            dates[0].day.as_str(),
            directory.day.as_str(),
        );
        if !listed {
            dates.push(directory);
        }
    }
    assert(dates@.map_values(|date: DateDirectory| date@) =~= wanted);
    dates
}

/// A transcript that was written in the directory of the process.
pub struct TranscriptCandidate {
    /// The bytes of the transcript's path.
    pub path: Vec<u8>,
    /// When the transcript was written last, in nanoseconds since the Unix epoch.
    pub modified_at: i128,
}

impl View for TranscriptCandidate {
    type V = (Seq<u8>, i128);

    open spec fn view(&self) -> (Seq<u8>, i128) {
        (self.path@, self.modified_at)
    }
}

/// A search for the transcript of a process.
pub struct TranscriptSearch {
    candidates: Vec<TranscriptCandidate>,
}

impl View for TranscriptSearch {
    type V = Seq<(Seq<u8>, i128)>;

    closed spec fn view(&self) -> Seq<(Seq<u8>, i128)> {
        self.candidates@.map_values(|candidate: TranscriptCandidate| candidate@)
    }
}

/// Whether candidate `i` was written at `since` or later, no other such candidate
/// was written after it, and none that follows it was written at the same time.
pub open spec fn is_latest_since(candidates: Seq<(Seq<u8>, i128)>, since: int, i: int) -> bool {
    &&& 0 <= i < candidates.len()
    &&& candidates[i].1 >= since
    &&& forall|j: int|
        0 <= j < candidates.len() && (#[trigger] candidates[j]).1 >= since ==> candidates[j].1
            <= candidates[i].1 && (j > i ==> candidates[j].1 < candidates[i].1)
}

/// The path of the candidate that was written last, if one was at `since` or later.
pub open spec fn latest_since(candidates: Seq<(Seq<u8>, i128)>, since: int) -> Option<Seq<u8>> {
    if exists|i: int| is_latest_since(candidates, since, i) {
        Some(candidates[choose|i: int| is_latest_since(candidates, since, i)].0)
    } else {
        None
    }
}

/// Whether some candidate was written at `since` or later.
pub open spec fn any_since(candidates: Seq<(Seq<u8>, i128)>, since: int) -> bool {
    exists|j: int| 0 <= j < candidates.len() && (#[trigger] candidates[j]).1 >= since
}

/// The time since when a transcript counts as recent: five minutes before the
/// process started, or the epoch where there is no such time.
pub open spec fn recent_since(started_at: i128) -> int {
    if started_at - RECENT_WINDOW >= i128::MIN {
        started_at - RECENT_WINDOW
    } else {
        0
    }
}

/// Whether the process was told to resume a session.
pub open spec fn resumes(process: CodexProcess) -> bool {
    exists|i: int|
        0 <= i < process.arguments@.len() && (#[trigger] process.arguments@[i])@ == "resume"@
}

/// The transcript of a process: the latest recent one; where none is recent and the
/// process resumes a session, the latest since it started.
pub open spec fn transcript_of(
    candidates: Seq<(Seq<u8>, i128)>,
    started_at: i128,
    resumed: bool,
) -> Option<Seq<u8>> {
    match latest_since(candidates, recent_since(started_at)) {
        Some(path) => Some(path),
        None => if resumed {
            latest_since(candidates, started_at as int)
        } else {
            None
        },
    }
}

/// At most one candidate is the latest.
proof fn lemma_latest_is_unique(candidates: Seq<(Seq<u8>, i128)>, since: int, i: int, j: int)
    requires
        is_latest_since(candidates, since, i),
        is_latest_since(candidates, since, j),
    ensures
        i == j,
{
    assert(candidates[i].1 >= since && candidates[j].1 >= since);
}

impl TranscriptSearch {
    /// A search that has come across nothing yet.
    pub fn new() -> (search: TranscriptSearch)
        ensures
            search@ == Seq::<(Seq<u8>, i128)>::empty(),
    {
        let search = TranscriptSearch { candidates: Vec::new() };
        assert(search@ =~= Seq::empty());
        search
    }

    /// Takes note of a transcript. It counts only if it was written in the directory
    /// of the process. Where it is unknown when it was written last, the epoch is
    /// taken.
    pub fn offer(&mut self, path: Vec<u8>, in_process_directory: bool, modified_at: Option<i128>)
        ensures
            final(self)@ == if in_process_directory {
                old(self)@.push(
                    (
                        path@,
                        match modified_at {
                            Some(time) => time,
                            None => 0,
                        },
                    ),
                )
            } else {
                old(self)@
            },
    {
        if in_process_directory {
            let time: i128 = match modified_at {
                Some(known) => known,
                None => 0,
            };
            self.candidates.push(TranscriptCandidate { path, modified_at: time });
        }
        assert(self@ =~= if in_process_directory {
            old(self)@.push(
                (
                    path@,
                    match modified_at {
                        Some(time) => time,
                        None => 0,
                    },
                ),
            )
        } else {
            old(self)@
        });
    }

    /// The path of the candidate that was written last, if one was at `since` or
    /// later.
    fn latest(&self, since: i128) -> (path: Option<Vec<u8>>)
        ensures
            match path {
                Some(bytes) => latest_since(self@, since as int) == Some(bytes@) && any_since(
                    self@,
                    since as int,
                ),
                None => latest_since(self@, since as int) is None && !any_since(
                    self@,
                    since as int,
                ),
            },
    {
        let mut best: Option<usize> = None;
        let mut i: usize = 0;
        while i < self.candidates.len()
            invariant
                i <= self.candidates@.len(),
                match best {
                    Some(b) => b < i && is_latest_since(self@.take(i as int), since as int, b as int),
                    None => forall|j: int| 0 <= j < i ==> (#[trigger] self@[j]).1 < since,
                },
            decreases self.candidates@.len() - i,
        {
            let time: i128 = self.candidates[i].modified_at;
            let ghost seen = self@.take(i as int);
            assert(self@[i as int].1 == time);
            let better = time >= since && match best {
                Some(b) => time >= self.candidates[b].modified_at,
                None => true,
            };
            proof {
                let grown = self@.take(i + 1);
                assert(grown =~= seen.push(self@[i as int]));
                if let Some(b) = best {
                    assert(seen[b as int].1 == self.candidates@[b as int].modified_at);
                    assert forall|j: int| 0 <= j < grown.len() && (#[trigger] grown[j]).1
                        >= since implies if better {
                        grown[j].1 <= time && (j > i ==> grown[j].1 < time)
                    } else {
                        grown[j].1 <= grown[b as int].1 && (j > b ==> grown[j].1
                            < grown[b as int].1)
                    } by {
                        if j < i {
                            assert(seen[j] == grown[j]);
                        }
                    }
                } else {
                    assert forall|j: int| 0 <= j < i implies (#[trigger] grown[j]).1 < since by {
                        assert(self@[j] == grown[j]);
                    }
                }
            }
            if better {
                best = Some(i);
            }
            i = i + 1;
        }
        assert(self@.take(i as int) =~= self@);
        match best {
            Some(b) => {
                proof {
                    let chosen = choose|j: int| is_latest_since(self@, since as int, j);
                    lemma_latest_is_unique(self@, since as int, b as int, chosen);
                    assert(self@[b as int].1 >= since);
                }
                let path = self.candidates[b].path.clone();
                assert(path@ =~= self@[b as int].0);
                Some(path)
            },
            None => {
                proof {
                    assert forall|j: int| !is_latest_since(self@, since as int, j) by {
                        if is_latest_since(self@, since as int, j) {
                            assert(self@[j].1 < since);
                        }
                    }
                }
                None
            },
        }
    }

    /// The path of the transcript of a process, among those that were noted.
    pub fn choose_transcript(&self, process: &CodexProcess) -> (path: Option<Vec<u8>>)
        ensures
            match path {
                Some(bytes) => transcript_of(self@, process.started_at, resumes(*process)) == Some(
                    bytes@,
                ),
                None => transcript_of(self@, process.started_at, resumes(*process)) is None,
            },
            path is Some <==> any_since(self@, recent_since(process.started_at)) || (resumes(
                *process,
            ) && any_since(self@, process.started_at as int)),
    {
        let recent: i128 = match process.started_at.checked_sub(RECENT_WINDOW) {
            Some(time) => time,
            None => 0,
        };
        assert(recent == recent_since(process.started_at));
        if let Some(path) = self.latest(recent) {
            return Some(path);
        }
        if is_resuming(process) {
            self.latest(process.started_at)
        } else {
            None
        }
    }
}

/// Whether the process was told to resume a session.
fn is_resuming(process: &CodexProcess) -> (resuming: bool)
    ensures
        resuming == resumes(*process),
{
    let mut i: usize = 0;
    while i < process.arguments.len()
        invariant
            i <= process.arguments@.len(),
            forall|j: int| 0 <= j < i ==> (#[trigger] process.arguments@[j])@ != "resume"@,
        decreases process.arguments@.len() - i,
    {
        if text::same_text(process.arguments[i].as_str(), "resume") {
            return true;
        }
        i = i + 1;
    }
    false
}

/// Whether a process resumes a session never matters for the choice: a transcript
/// that was written since the process started is a recent one. This leaves out
/// starting times so early that there is no time five minutes before them.
pub proof fn lemma_resuming_adds_no_transcript(
    candidates: Seq<(Seq<u8>, i128)>,
    started_at: i128,
    resumed: bool,
)
    requires
        started_at - RECENT_WINDOW >= i128::MIN,
    ensures
        transcript_of(candidates, started_at, resumed) == latest_since(
            candidates,
            recent_since(started_at),
        ),
{
    let since = recent_since(started_at);
    if latest_since(candidates, since) is None {
        assert forall|j: int| !is_latest_since(candidates, started_at as int, j) by {
            if is_latest_since(candidates, started_at as int, j) {
                assert(candidates[j].1 >= since);
                lemma_latest_exists(candidates, since);
            }
        }
    }
}

/// Where some candidate was written at `since` or later, one of them is the latest.
pub proof fn lemma_latest_exists(candidates: Seq<(Seq<u8>, i128)>, since: int)
    requires
        any_since(candidates, since),
    ensures
        latest_since(candidates, since) is Some,
    decreases candidates.len(),
{
    let before = candidates.drop_last();
    let last = candidates.len() - 1;
    if any_since(before, since) {
        lemma_latest_exists(before, since);
        let b = choose|i: int| is_latest_since(before, since, i);
        assert(candidates[b] == before[b]);
        assert forall|j: int| 0 <= j < last implies candidates[j] == before[j] by {}
        if candidates[last].1 >= before[b].1 {
            assert forall|j: int| 0 <= j < candidates.len() && (#[trigger] candidates[j]).1
                >= since implies candidates[j].1 <= candidates[last].1 by {
                if j < last {
                    assert(before[j].1 >= since);
                }
            }
            assert(is_latest_since(candidates, since, last));
        } else {
            assert forall|j: int| 0 <= j < candidates.len() && (#[trigger] candidates[j]).1
                >= since implies candidates[j].1 <= candidates[b].1 && (j > b ==> candidates[j].1
                < candidates[b].1) by {
                if j < last {
                    assert(before[j].1 >= since);
                }
            }
            assert(is_latest_since(candidates, since, b));
        }
    } else {
        assert forall|j: int| 0 <= j < last implies (#[trigger] candidates[j]).1 < since by {
            assert(before[j].1 < since);
        }
        assert(is_latest_since(candidates, since, last));
    }
}

} // verus!
