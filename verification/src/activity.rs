//! Whether Codex below a terminal is handling a prompt.

use std::collections::HashMap;
use vstd::prelude::*;

use crate::process;
use crate::process::{CodexProcess, ProcessInfo};
use crate::report;
use crate::split;
use crate::transcript;
use crate::transcript::{TranscriptEvent, NEWLINE};

verus! {

/// How long a submitted prompt counts as running before its transcript says so, in
/// nanoseconds: five seconds.
pub const PROMPT_SUBMISSION_GRACE: u128 = 5_000_000_000;

/// Tracks whether Codex below one terminal is actively handling a prompt.
///
/// The monitor follows Codex's session transcript. It does no input or output of its
/// own: it is told what runs below the terminal, what time it is and what a
/// transcript holds, and it says what it has to be told next. On a platform that
/// tells nothing of its processes the monitor stays inert.
pub struct ActivityMonitor {
    process: Option<(i32, i128)>,
    transcript_path: Option<Vec<u8>>,
    transcript_offset: u64,
    pending_transcript_data: Vec<u8>,
    prompt_is_running: bool,
    prompt_submission_deadline: Option<u128>,
}

/// What a monitor knows.
#[verifier::ext_equal]
pub struct MonitorState {
    /// The id and the starting time of the process that is followed.
    pub process: Option<(i32, i128)>,
    /// The bytes of the path of its transcript.
    pub transcript: Option<Seq<u8>>,
    /// How much of the transcript was read.
    pub offset: nat,
    /// The last bytes that were read, if they do not make up a whole line.
    pub pending: Seq<u8>,
    /// Whether a prompt is being handled.
    pub running: bool,
    /// Until when a submitted prompt counts as running without the transcript
    /// saying so, on a clock that never goes back.
    pub deadline: Option<u128>,
}

impl View for ActivityMonitor {
    type V = MonitorState;

    closed spec fn view(&self) -> MonitorState {
        MonitorState {
            process: self.process,
            transcript: match self.transcript_path {
                Some(path) => Some(path@),
                None => None,
            },
            offset: self.transcript_offset as nat,
            pending: self.pending_transcript_data@,
            running: self.prompt_is_running,
            deadline: self.prompt_submission_deadline,
        }
    }
}

/// The id and the starting time of a process, which tell it from every other.
pub open spec fn identity(process: CodexProcess) -> (i32, i128) {
    (process.id, process.started_at)
}

impl MonitorState {
    /// A monitor that knows nothing but which process it follows.
    pub open spec fn fresh(process: Option<(i32, i128)>) -> MonitorState {
        MonitorState {
            process,
            transcript: None,
            offset: 0,
            pending: Seq::empty(),
            running: false,
            deadline: None,
        }
    }

    /// What was read and not made use of yet is less than a line, and was read.
    pub open spec fn wf(self) -> bool {
        &&& !self.pending.contains(NEWLINE)
        &&& self.pending.len() <= self.offset
    }

    /// The monitor follows a process. If that is another one than before, it forgets
    /// everything else.
    pub open spec fn following(self, process: (i32, i128)) -> MonitorState {
        if self.process == Some(process) {
            self
        } else {
            MonitorState::fresh(Some(process))
        }
    }

    /// A prompt was submitted to a process.
    pub open spec fn submitted(self, process: (i32, i128), now: u128) -> MonitorState {
        MonitorState {
            running: true,
            deadline: Some((now + PROMPT_SUBMISSION_GRACE) as u128),
            ..self.following(process)
        }
    }

    /// The transcript has a size. One that is smaller than what was read was written
    /// anew, so it is read from its beginning.
    pub open spec fn measured(self, size: u64) -> MonitorState {
        if size < self.offset {
            MonitorState { offset: 0, pending: Seq::empty(), running: false, ..self }
        } else {
            self
        }
    }

    /// The transcript tells of an event. While a submitted prompt waits for its
    /// beginning, endings belong to an earlier prompt.
    pub open spec fn after_event(self, event: TranscriptEvent) -> MonitorState {
        match event {
            TranscriptEvent::Started => MonitorState { running: true, deadline: None, ..self },
            TranscriptEvent::Ended => if self.deadline is None {
                MonitorState { running: false, ..self }
            } else {
                self
            },
            TranscriptEvent::Other => self,
        }
    }

    /// The transcript goes on with these lines.
    pub open spec fn after_lines(self, lines: Seq<Seq<u8>>) -> MonitorState
        decreases lines.len(),
    {
        if lines.len() == 0 {
            self
        } else {
            self.after_lines(lines.drop_last()).after_event(
                transcript::event_of_line(lines.last()),
            )
        }
    }

    /// The transcript goes on with these bytes.
    pub open spec fn after_data(self, data: Seq<u8>) -> MonitorState {
        let unread = self.pending + data;
        MonitorState {
            offset: self.offset + data.len(),
            pending: split::open_piece(unread, NEWLINE),
            ..self.after_lines(split::ended_pieces(unread, NEWLINE))
        }
    }

    /// The time is `now`. A prompt whose deadline has passed does not run.
    pub open spec fn at_time(self, now: u128) -> MonitorState {
        match self.deadline {
            Some(deadline) => if deadline < now {
                MonitorState { running: false, deadline: None, ..self }
            } else {
                self
            },
            None => self,
        }
    }
}

/// What a monitor has to be told next, to find out whether a prompt is running.
pub enum PollStep {
    /// Where the transcript of this process is.
    FindTranscript(CodexProcess),
    /// How large the transcript at this path is.
    MeasureTranscript(Vec<u8>),
    /// What the transcript that was measured holds from this offset on.
    ReadTranscript(u64),
    /// What time it is.
    ReadClock,
    /// Nothing: this is whether a prompt is running.
    Answer(bool),
}

/// The step that comes once the process and its transcript are known.
pub open spec fn measures_or_reads_clock(state: MonitorState, step: PollStep) -> bool {
    match state.transcript {
        Some(path) => step matches PollStep::MeasureTranscript(named) && named@ == path,
        None => step is ReadClock,
    }
}

/// The step that comes once it is known which process runs below the terminal.
pub open spec fn begins_poll(
    state: MonitorState,
    found: Option<CodexProcess>,
    step: PollStep,
) -> bool {
    match found {
        Some(process) => if state.transcript is None {
            step == PollStep::FindTranscript(process)
        } else {
            measures_or_reads_clock(state, step)
        },
        None => step == PollStep::Answer(false),
    }
}

/// The state once it is known which process runs below the terminal.
pub open spec fn with_process(state: MonitorState, found: Option<CodexProcess>) -> MonitorState {
    match found {
        Some(process) => state.following(identity(process)),
        None => MonitorState::fresh(None),
    }
}

/// The state once it is known how large the transcript is, if it could be opened.
pub open spec fn with_size(state: MonitorState, size: Option<u64>) -> MonitorState {
    match size {
        Some(length) => state.measured(length),
        None => state,
    }
}

/// The step that comes once it is known how large the transcript is: it is read where
/// it is not as large as what was read of it.
pub open spec fn reads_or_reads_clock(
    state: MonitorState,
    size: Option<u64>,
    step: PollStep,
) -> bool {
    match size {
        Some(length) => if length == state.offset {
            step is ReadClock
        } else {
            step matches PollStep::ReadTranscript(offset) && offset == state.offset
        },
        None => step is ReadClock,
    }
}

/// The state once it is known how the transcript goes on, if it could be read.
pub open spec fn with_data(state: MonitorState, data: Option<Seq<u8>>) -> MonitorState {
    match data {
        Some(bytes) => if bytes.len() == 0 {
            state
        } else {
            state.after_data(bytes)
        },
        None => state,
    }
}

/// Bytes that may be missing.
pub open spec fn optional_bytes(optional: Option<Vec<u8>>) -> Option<Seq<u8>> {
    match optional {
        Some(bytes) => Some(bytes@),
        None => None,
    }
}

impl Default for ActivityMonitor {
    fn default() -> (monitor: ActivityMonitor)
        ensures
            monitor@ == MonitorState::fresh(None),
            monitor@.wf(),
    {
        ActivityMonitor {
            process: None,
            transcript_path: None,
            transcript_offset: 0,
            pending_transcript_data: Vec::new(),
            prompt_is_running: false,
            prompt_submission_deadline: None,
        }
    }
}

impl ActivityMonitor {
    /// A prompt was submitted to the shell with this id. `processes` are the running
    /// processes and `now` is the time in nanoseconds.
    pub fn note_prompt_submitted(
        &mut self,
        shell_pid: u32,
        processes: &HashMap<i32, ProcessInfo>,
        now: u128,
    )
        requires
            now + PROMPT_SUBMISSION_GRACE <= u128::MAX,
        ensures
            exists|found: Option<CodexProcess>| #[trigger]
                process::is_codex_below(processes@, report::signed_pid(shell_pid) as i32, found)
                    && final(self)@ == match found {
                    Some(process) => old(self)@.submitted(identity(process), now),
                    None => old(self)@,
                },
            old(self)@.wf() ==> final(self)@.wf(),
    {
        let found = process::codex_process(report::to_pid(shell_pid), processes);
        match &found {
            Some(process) => self.prompt_submitted(process, now),
            None => {},
        }
        assert(process::is_codex_below(
            processes@,
            report::signed_pid(shell_pid) as i32,
            found,
        ));
    }

    /// A prompt was submitted to this process.
    pub fn prompt_submitted(&mut self, process: &CodexProcess, now: u128)
        requires
            now + PROMPT_SUBMISSION_GRACE <= u128::MAX,
        ensures
            final(self)@ == old(self)@.submitted(identity(*process), now),
            old(self)@.wf() ==> final(self)@.wf(),
    {
        self.set_process(process);
        self.prompt_is_running = true;
        self.prompt_submission_deadline = Some(now + PROMPT_SUBMISSION_GRACE);
    }

    /// Asks whether a prompt is running below the shell with this id. `processes` are
    /// the running processes. The answer comes at once where Codex is not among
    /// those below the shell. Otherwise the monitor says what it has to be told
    /// first.
    pub fn is_prompt_running(
        &mut self,
        shell_pid: u32,
        processes: &HashMap<i32, ProcessInfo>,
    ) -> (step: PollStep)
        ensures
            exists|found: Option<CodexProcess>| #[trigger]
                process::is_codex_below(processes@, report::signed_pid(shell_pid) as i32, found)
                    && final(self)@ == with_process(old(self)@, found) && begins_poll(
                    final(self)@,
                    found,
                    step,
                ),
            old(self)@.wf() ==> final(self)@.wf(),
    {
        let found = process::codex_process(report::to_pid(shell_pid), processes);
        let ghost told = found;
        let step = self.process_found(found);
        assert(process::is_codex_below(
            processes@,
            report::signed_pid(shell_pid) as i32,
            told,
        ));
        step
    }

    /// This is the Codex process below the terminal.
    pub fn process_found(&mut self, found: Option<CodexProcess>) -> (step: PollStep)
        ensures
            final(self)@ == with_process(old(self)@, found),
            begins_poll(final(self)@, found, step),
            old(self)@.wf() ==> final(self)@.wf(),
    {
        match found {
            Some(process) => {
                self.set_process(&process);
                if self.transcript_path.is_none() {
                    PollStep::FindTranscript(process)
                } else {
                    self.measure_or_read_clock()
                }
            },
            None => {
                self.reset(None);
                PollStep::Answer(false)
            },
        }
    }

    /// The transcript of the process is at this path, if it has one.
    pub fn transcript_found(&mut self, path: Option<Vec<u8>>) -> (step: PollStep)
        ensures
            final(self)@ == (MonitorState { transcript: optional_bytes(path), ..old(self)@ }),
            measures_or_reads_clock(final(self)@, step),
            old(self)@.wf() ==> final(self)@.wf(),
    {
        self.transcript_path = path;
        self.measure_or_read_clock()
    }

    fn measure_or_read_clock(&self) -> (step: PollStep)
        ensures
            measures_or_reads_clock(self@, step),
    {
        match &self.transcript_path {
            Some(path) => {
                let named = path.clone();
                assert(named@ =~= path@);
                PollStep::MeasureTranscript(named)
            },
            None => PollStep::ReadClock,
        }
    }

    /// The transcript has this size, if it could be opened.
    pub fn transcript_measured(&mut self, size: Option<u64>) -> (step: PollStep)
        ensures
            final(self)@ == with_size(old(self)@, size),
            reads_or_reads_clock(final(self)@, size, step),
            old(self)@.wf() ==> final(self)@.wf(),
    {
        match size {
            Some(length) => {
                if length < self.transcript_offset {
                    self.transcript_offset = 0;
                    self.pending_transcript_data.clear();
                    self.prompt_is_running = false;
                }
                if length == self.transcript_offset {
                    PollStep::ReadClock
                } else {
                    PollStep::ReadTranscript(self.transcript_offset)
                }
            },
            None => PollStep::ReadClock,
        }
    }

    /// The transcript holds these bytes from the offset on that was asked for, if it
    /// could be read.
    pub fn transcript_read(&mut self, data: Option<Vec<u8>>) -> (step: PollStep)
        requires
            data matches Some(bytes) ==> old(self)@.offset + bytes@.len() <= u64::MAX,
        ensures
            step is ReadClock,
            final(self)@ == with_data(old(self)@, optional_bytes(data)),
            old(self)@.wf() ==> final(self)@.wf(),
    {
        if let Some(bytes) = data {
            if bytes.len() > 0 {
                proof {
                    lemma_data_keeps_the_invariant(self@, bytes@);
                }
                self.read_new_events(bytes);
            }
        }
        PollStep::ReadClock
    }

    /// The time is `now`, in nanoseconds. Says whether a prompt is running.
    pub fn clock_read(&mut self, now: u128) -> (running: bool)
        ensures
            final(self)@ == old(self)@.at_time(now),
            running == final(self)@.running,
            old(self)@.wf() ==> final(self)@.wf(),
    {
        if let Some(deadline) = self.prompt_submission_deadline {
            if deadline < now {
                self.prompt_submission_deadline = None;
                self.prompt_is_running = false;
            }
        }
        self.prompt_is_running
    }

    /// How much of the transcript was read.
    pub fn transcript_offset(&self) -> (offset: u64)
        ensures
            offset == self@.offset,
    {
        self.transcript_offset
    }

    fn set_process(&mut self, process: &CodexProcess)
        ensures
            final(self)@ == old(self)@.following(identity(*process)),
    {
        let followed = match self.process {
            Some((id, started_at)) => id == process.id && started_at == process.started_at,
            None => false,
        };
        if !followed {
            self.reset(Some(process));
        }
    }

    fn reset(&mut self, process: Option<&CodexProcess>)
        ensures
            final(self)@ == MonitorState::fresh(
                match process {
                    Some(known) => Some(identity(*known)),
                    None => None,
                },
            ),
    {
        self.process = match process {
            Some(known) => Some((known.id, known.started_at)),
            None => None,
        };
        self.transcript_path = None;
        self.transcript_offset = 0;
        self.pending_transcript_data.clear();
        self.prompt_is_running = false;
        self.prompt_submission_deadline = None;
    }

    fn read_new_events(&mut self, new_data: Vec<u8>)
        requires
            old(self)@.offset + new_data@.len() <= u64::MAX,
        ensures
            final(self)@ == old(self)@.after_data(new_data@),
    {
        let ghost before = self@;
        let mut new_data = new_data;
        self.transcript_offset = self.transcript_offset + new_data.len() as u64;
        self.pending_transcript_data.append(&mut new_data);
        let mut lines = split::split_bytes(self.pending_transcript_data.as_slice(), NEWLINE);
        let ghost cut = lines@.map_values(|piece: Vec<u8>| piece@);
        let open = match lines.pop() {
            Some(last) => last,
            None => Vec::new(),
        };
        let ghost ended = lines@.map_values(|piece: Vec<u8>| piece@);
        proof {
            assert(cut.last() == open@);
            assert(ended =~= cut.drop_last());
        }
        self.pending_transcript_data = open;
        let ghost started = self@;
        let mut i: usize = 0;
        assert(started.after_lines(ended.take(0)) == started);
        while i < lines.len()
            invariant
                i <= lines@.len(),
                ended == lines@.map_values(|piece: Vec<u8>| piece@),
                self@ == started.after_lines(ended.take(i as int)),
            decreases lines@.len() - i,
        {
            let event = transcript::read_event(lines[i].as_slice());
            proof {
                assert(ended.take(i + 1).drop_last() =~= ended.take(i as int));
                assert(ended.take(i + 1).last() == lines@[i as int]@);
            }
            match event {
                TranscriptEvent::Started => {
                    self.prompt_submission_deadline = None;
                    self.prompt_is_running = true;
                },
                TranscriptEvent::Ended => {
                    if self.prompt_submission_deadline.is_none() {
                        self.prompt_is_running = false;
                    }
                },
                TranscriptEvent::Other => {},
            }
            i = i + 1;
        }
        proof {
            assert(ended.take(i as int) =~= ended);
            lemma_lines_change_only_the_prompt(started, before, ended);
            lemma_lines_change_only_the_prompt(before, before, ended);
        }
    }
}

/// What lines do to whether a prompt is running depends on nothing else, and they do
/// nothing else.
pub proof fn lemma_lines_change_only_the_prompt(
    left: MonitorState,
    right: MonitorState,
    lines: Seq<Seq<u8>>,
)
    requires
        left.running == right.running,
        left.deadline == right.deadline,
    ensures
        left.after_lines(lines) == (MonitorState {
            running: right.after_lines(lines).running,
            deadline: right.after_lines(lines).deadline,
            ..left
        }),
    decreases lines.len(),
{
    if lines.len() > 0 {
        lemma_lines_change_only_the_prompt(left, right, lines.drop_last());
    }
}

/// Reading bytes of the transcript keeps the invariant of a monitor.
pub proof fn lemma_data_keeps_the_invariant(state: MonitorState, data: Seq<u8>)
    ensures
        state.wf() ==> state.after_data(data).wf(),
{
    split::lemma_open_piece(state.pending + data, NEWLINE);
}

} // verus!
