use rioterm::activity::{ActivityMonitor, PollStep, PROMPT_SUBMISSION_GRACE};
use rioterm::process::{codex_process, CodexProcess, ProcessInfo};
use rioterm::transcript::{
    date_directory, directories_to_search, directory_from_types, epoch_seconds, event_from_types,
    is_transcript_extension, read_event, transcript_working_directory, TranscriptEvent,
    TranscriptSearch, RECENT_WINDOW, TRANSCRIPT_READ_LIMIT,
};
use std::collections::HashMap;

const STARTED: &[u8] = br#"{"type":"event_msg","payload":{"type":"task_started"}}"#;
const COMPLETE: &[u8] = br#"{"type":"event_msg","payload":{"type":"task_complete"}}"#;
const ABORTED: &[u8] = br#"{"type":"event_msg","payload":{"type":"turn_aborted"}}"#;

fn info(parent_id: i32, name: &str, arguments: &[&str], directory: Option<&str>) -> ProcessInfo {
    ProcessInfo {
        parent_id,
        name: name.to_string(),
        arguments: arguments.iter().map(|a| a.to_string()).collect(),
        started_at: 1_000,
        current_directory: directory.map(|d| d.to_string()),
    }
}

fn codex(id: i32, started_at: i128, arguments: &[&str]) -> CodexProcess {
    CodexProcess {
        id,
        started_at,
        current_directory: "/work".to_string(),
        arguments: arguments.iter().map(|a| a.to_string()).collect(),
    }
}

fn line(text: &[u8]) -> Vec<u8> {
    let mut bytes = text.to_vec();
    bytes.push(b'\n');
    bytes
}

#[test]
fn a_native_program_is_found_below_the_shell() {
    let mut table = HashMap::new();
    table.insert(10, info(1, "zsh", &[], None));
    table.insert(11, info(10, "node", &[], None));
    table.insert(12, info(11, "codex", &["codex", "resume"], Some("/work")));
    table.insert(13, info(1, "codex", &[], Some("/elsewhere")));
    let found = codex_process(10, &table).unwrap();
    assert_eq!(found.id, 12);
    assert_eq!(found.started_at, 1_000);
    assert_eq!(found.current_directory, "/work");
    assert_eq!(found.arguments, vec!["codex", "resume"]);
    assert_eq!(codex_process(11, &table).unwrap().id, 12);
    assert!(codex_process(12, &table).is_none());
    assert!(codex_process(99, &table).is_none());
    assert!(codex_process(0, &table).is_none());
    assert!(codex_process(-10, &table).is_none());
}

#[test]
fn a_native_program_wins_over_its_launcher() {
    for _ in 0..20 {
        let mut table = HashMap::new();
        table.insert(20, info(10, "node", &["/bin/codex"], Some("/launcher")));
        table.insert(21, info(20, "codex-aarch64", &[], Some("/native")));
        table.insert(22, info(10, "node", &["codex.js"], Some("/other")));
        assert_eq!(codex_process(10, &table).unwrap().id, 21);
    }
}

#[test]
fn a_launcher_is_found_where_there_is_no_native_program() {
    let mut table = HashMap::new();
    table.insert(20, info(10, "node", &["/bin/codex"], Some("/launcher")));
    table.insert(21, info(20, "zsh", &[], None));
    assert_eq!(codex_process(10, &table).unwrap().id, 20);
}

#[test]
fn a_process_without_a_known_directory_is_passed_over() {
    let mut table = HashMap::new();
    table.insert(20, info(10, "codex", &[], None));
    assert!(codex_process(10, &table).is_none());
    table.insert(21, info(20, "node", &["codex"], Some("/l")));
    assert_eq!(codex_process(10, &table).unwrap().id, 21);
}

#[test]
fn a_search_ends_on_circular_tables() {
    let mut table = HashMap::new();
    table.insert(10, info(10, "zsh", &[], None));
    table.insert(11, info(10, "zsh", &[], None));
    table.insert(30, info(31, "codex", &[], Some("/a")));
    table.insert(31, info(30, "codex", &[], Some("/b")));
    assert!(codex_process(10, &table).is_none());
    assert_eq!(codex_process(30, &table).unwrap().id, 31);
    let mut table = HashMap::new();
    table.insert(10, info(12, "codex", &[], Some("/self")));
    table.insert(12, info(10, "zsh", &[], None));
    assert_eq!(codex_process(10, &table).unwrap().id, 10);
}

#[test]
fn lines_tell_of_events() {
    assert_eq!(read_event(STARTED), TranscriptEvent::Started);
    assert_eq!(read_event(COMPLETE), TranscriptEvent::Ended);
    assert_eq!(read_event(ABORTED), TranscriptEvent::Ended);
    assert_eq!(read_event(b""), TranscriptEvent::Other);
    assert_eq!(read_event(b"no json"), TranscriptEvent::Other);
    assert_eq!(read_event(b"[1, 2]"), TranscriptEvent::Other);
    assert_eq!(read_event(b"{}"), TranscriptEvent::Other);
    assert_eq!(
        read_event(br#"{"type":"event_msg"}"#),
        TranscriptEvent::Other
    );
    assert_eq!(
        read_event(br#"{"type":"event_msg","payload":{"type":7}}"#),
        TranscriptEvent::Other
    );
    assert_eq!(
        read_event(br#"{"type":"event_msg","payload":{"type":"token_count"}}"#),
        TranscriptEvent::Other
    );
    assert_eq!(
        read_event(br#"{"type":"response_item","payload":{"type":"task_started"}}"#),
        TranscriptEvent::Other
    );
    assert_eq!(
        read_event(br#" {"payload" : {"x":1, "type":"task_started"}, "type":"event_msg"} "#),
        TranscriptEvent::Started
    );
}

#[test]
fn types_decide_the_event() {
    assert_eq!(
        event_from_types(Some("event_msg"), Some("task_started")),
        TranscriptEvent::Started
    );
    assert_eq!(
        event_from_types(Some("event_msg"), Some("turn_aborted")),
        TranscriptEvent::Ended
    );
    assert_eq!(
        event_from_types(Some("event_msg"), None),
        TranscriptEvent::Other
    );
    assert_eq!(
        event_from_types(None, Some("task_started")),
        TranscriptEvent::Other
    );
}

#[test]
fn the_first_line_names_the_directory() {
    let head = b"{\"type\":\"session_meta\",\"payload\":{\"cwd\":\"/Work\"}}\nrubbish";
    assert_eq!(
        transcript_working_directory(head),
        Some("/Work".to_string())
    );
    assert_eq!(
        transcript_working_directory(b"{\"type\":\"session_meta\",\"payload\":{}}\n"),
        None
    );
    assert_eq!(
        transcript_working_directory(b"{\"type\":\"event_msg\",\"payload\":{\"cwd\":\"/w\"}}"),
        None
    );
    assert_eq!(transcript_working_directory(b""), None);
    assert_eq!(
        transcript_working_directory(
            b"\n{\"type\":\"session_meta\",\"payload\":{\"cwd\":\"/w\"}}"
        ),
        None
    );
    assert_eq!(
        directory_from_types(Some("session_meta"), Some("/w")),
        Some("/w".to_string())
    );
    assert_eq!(directory_from_types(Some("other"), Some("/w")), None);
    assert_eq!(directory_from_types(Some("session_meta"), None), None);
    assert_eq!(TRANSCRIPT_READ_LIMIT, 262_144);
}

#[test]
fn transcripts_have_an_extension() {
    assert!(is_transcript_extension(Some("jsonl")));
    assert!(!is_transcript_extension(Some("json")));
    assert!(!is_transcript_extension(None));
}

#[test]
fn times_before_the_epoch_have_no_date() {
    assert_eq!(epoch_seconds(-1), None);
    assert_eq!(epoch_seconds(0), Some(0));
    assert_eq!(epoch_seconds(1_999_999_999), Some(1));
}

#[test]
fn dates_name_directories() {
    let date = date_directory(125, 0, 9);
    assert_eq!(
        (date.year.as_str(), date.month.as_str(), date.day.as_str()),
        ("2025", "01", "09")
    );
    let date = date_directory(-1000, 11, 31);
    assert_eq!(
        (date.year.as_str(), date.month.as_str(), date.day.as_str()),
        ("0900", "12", "31")
    );
}

#[test]
fn a_date_is_searched_once() {
    let names = |dates: Vec<rioterm::transcript::DateDirectory>| -> Vec<String> {
        dates
            .into_iter()
            .map(|d| format!("{}/{}/{}", d.year, d.month, d.day))
            .collect()
    };
    assert_eq!(
        names(directories_to_search(
            Some(date_directory(125, 1, 2)),
            Some(date_directory(125, 1, 3))
        )),
        vec!["2025/02/02", "2025/02/03"]
    );
    assert_eq!(
        names(directories_to_search(
            Some(date_directory(125, 1, 2)),
            Some(date_directory(125, 1, 2))
        )),
        vec!["2025/02/02"]
    );
    assert_eq!(
        names(directories_to_search(None, Some(date_directory(125, 1, 2)))),
        vec!["2025/02/02"]
    );
    assert!(names(directories_to_search(None, None)).is_empty());
}

#[test]
fn the_latest_recent_transcript_is_chosen() {
    let started_at: i128 = 1_000_000_000_000;
    let process = codex(1, started_at, &[]);
    let mut search = TranscriptSearch::new();
    assert_eq!(search.choose_transcript(&process), None);
    search.offer(b"old".to_vec(), true, Some(started_at - RECENT_WINDOW - 1));
    search.offer(b"unknown".to_vec(), true, None);
    assert_eq!(search.choose_transcript(&process), None);
    assert_eq!(
        search.choose_transcript(&codex(1, started_at, &["codex", "resume"])),
        None
    );
    search.offer(b"edge".to_vec(), true, Some(started_at - RECENT_WINDOW));
    assert_eq!(search.choose_transcript(&process), Some(b"edge".to_vec()));
    search.offer(b"other".to_vec(), false, Some(started_at + 50));
    assert_eq!(search.choose_transcript(&process), Some(b"edge".to_vec()));
    search.offer(b"new".to_vec(), true, Some(started_at + 9));
    search.offer(b"newer".to_vec(), true, Some(started_at + 9));
    search.offer(b"older".to_vec(), true, Some(started_at + 8));
    assert_eq!(search.choose_transcript(&process), Some(b"newer".to_vec()));
}

#[test]
fn an_unknown_time_is_the_epoch() {
    let mut search = TranscriptSearch::new();
    search.offer(b"unknown".to_vec(), true, None);
    assert_eq!(
        search.choose_transcript(&codex(1, 0, &[])),
        Some(b"unknown".to_vec())
    );
    assert_eq!(
        search.choose_transcript(&codex(1, i128::MIN, &[])),
        Some(b"unknown".to_vec())
    );
    let mut search = TranscriptSearch::new();
    search.offer(b"early".to_vec(), true, Some(-5));
    assert_eq!(search.choose_transcript(&codex(1, i128::MIN, &[])), None);
    assert_eq!(
        search.choose_transcript(&codex(1, i128::MIN, &["resume"])),
        Some(b"early".to_vec())
    );
}

fn table() -> HashMap<i32, ProcessInfo> {
    let mut table = HashMap::new();
    table.insert(12, info(10, "codex", &[], Some("/work")));
    table
}

/// Asks a monitor for an answer while its transcript, at `path`, holds `content`.
fn poll(
    monitor: &mut ActivityMonitor,
    processes: &HashMap<i32, ProcessInfo>,
    path: Option<&[u8]>,
    content: &[u8],
    now: u128,
) -> bool {
    let mut step = monitor.is_prompt_running(10, processes);
    loop {
        step = match step {
            PollStep::FindTranscript(process) => {
                assert_eq!(process.id, 12);
                monitor.transcript_found(path.map(|p| p.to_vec()))
            }
            PollStep::MeasureTranscript(found) => {
                assert_eq!(Some(found.as_slice()), path);
                monitor.transcript_measured(Some(content.len() as u64))
            }
            PollStep::ReadTranscript(offset) => {
                monitor.transcript_read(Some(content[offset as usize..].to_vec()))
            }
            PollStep::ReadClock => return monitor.clock_read(now),
            PollStep::Answer(running) => return running,
        };
    }
}

#[test]
fn nothing_runs_where_no_processes_are_known() {
    let mut monitor = ActivityMonitor::default();
    let nothing = HashMap::new();
    monitor.note_prompt_submitted(10, &nothing, 5);
    assert!(!poll(&mut monitor, &nothing, None, b"", 6));
}

#[test]
fn a_transcript_tells_whether_a_prompt_runs() {
    let mut monitor = ActivityMonitor::default();
    let processes = table();
    let mut content: Vec<u8> = Vec::new();
    assert!(!poll(&mut monitor, &processes, None, b"", 0));
    assert!(!poll(&mut monitor, &processes, Some(b"/t"), &content, 0));
    content.extend(line(STARTED));
    assert!(poll(&mut monitor, &processes, Some(b"/t"), &content, 0));
    assert_eq!(monitor.transcript_offset(), content.len() as u64);
    assert!(poll(&mut monitor, &processes, Some(b"/t"), &content, u128::MAX));
    content.extend(line(COMPLETE));
    assert!(!poll(&mut monitor, &processes, Some(b"/t"), &content, 0));
    content.extend(line(STARTED));
    content.extend(line(ABORTED));
    content.extend(line(STARTED));
    content.extend(line(b""));
    assert!(poll(&mut monitor, &processes, Some(b"/t"), &content, 0));
}

#[test]
fn lines_may_come_in_parts() {
    let whole = [line(STARTED), line(b"?"), line(COMPLETE), line(STARTED)].concat();
    for cut in 0..whole.len() {
        let mut monitor = ActivityMonitor::default();
        let processes = table();
        poll(&mut monitor, &processes, Some(b"/t"), &whole[..cut], 0);
        assert!(poll(&mut monitor, &processes, Some(b"/t"), &whole, 0));
        assert_eq!(monitor.transcript_offset(), whole.len() as u64);
    }
    let mut monitor = ActivityMonitor::default();
    let open = &whole[..whole.len() - 1];
    assert!(!poll(&mut monitor, &table(), Some(b"/t"), open, 0));
}

#[test]
fn a_submitted_prompt_runs_for_the_grace() {
    let mut monitor = ActivityMonitor::default();
    let processes = table();
    let mut content = line(COMPLETE);
    assert!(!poll(&mut monitor, &processes, Some(b"/t"), &content, 0));
    monitor.note_prompt_submitted(10, &processes, 100);
    content.extend(line(COMPLETE));
    assert!(poll(&mut monitor, &processes, Some(b"/t"), &content, 100));
    let last = 100 + PROMPT_SUBMISSION_GRACE;
    assert!(poll(&mut monitor, &processes, Some(b"/t"), &content, last));
    assert!(!poll(&mut monitor, &processes, Some(b"/t"), &content, last + 1));
    assert!(!poll(&mut monitor, &processes, Some(b"/t"), &content, 100));
}

#[test]
fn a_begun_prompt_has_no_deadline() {
    let mut monitor = ActivityMonitor::default();
    let processes = table();
    monitor.note_prompt_submitted(10, &processes, 0);
    let mut content = line(STARTED);
    assert!(poll(&mut monitor, &processes, Some(b"/t"), &content, 0));
    assert!(poll(&mut monitor, &processes, Some(b"/t"), &content, u128::MAX));
    content.extend(line(ABORTED));
    assert!(!poll(&mut monitor, &processes, Some(b"/t"), &content, 0));
}

#[test]
fn another_process_starts_anew() {
    let mut monitor = ActivityMonitor::default();
    let content = line(STARTED);
    assert!(poll(&mut monitor, &table(), Some(b"/t"), &content, 0));
    let mut later = table();
    later.get_mut(&12).unwrap().started_at = 2_000;
    assert!(!poll(&mut monitor, &later, None, b"", 0));
    assert_eq!(monitor.transcript_offset(), 0);
    assert!(poll(&mut monitor, &later, Some(b"/u"), &content, 0));
    assert!(!poll(&mut monitor, &HashMap::new(), Some(b"/u"), &content, 0));
    assert_eq!(monitor.transcript_offset(), 0);
}

#[test]
fn a_shorter_transcript_is_read_from_its_beginning() {
    let mut monitor = ActivityMonitor::default();
    let processes = table();
    let long = [line(b"{}"), line(STARTED), b"rest".to_vec()].concat();
    assert!(poll(&mut monitor, &processes, Some(b"/t"), &long, 0));
    assert!(!poll(&mut monitor, &processes, Some(b"/t"), &line(b"{}"), 0));
    assert_eq!(monitor.transcript_offset(), 3);
    assert!(!poll(&mut monitor, &processes, Some(b"/t"), b"", 0));
    assert_eq!(monitor.transcript_offset(), 0);
    assert!(poll(&mut monitor, &processes, Some(b"/t"), &line(STARTED), 0));
}

#[test]
fn a_transcript_that_cannot_be_read_changes_nothing() {
    let mut monitor = ActivityMonitor::default();
    monitor.process_found(Some(codex(12, 1, &[])));
    monitor.transcript_found(Some(b"/t".to_vec()));
    monitor.transcript_measured(Some(60));
    monitor.transcript_read(Some(line(STARTED)));
    assert!(monitor.clock_read(0));
    let read = monitor.transcript_offset();
    assert!(matches!(monitor.transcript_measured(None), PollStep::ReadClock));
    assert!(matches!(
        monitor.transcript_measured(Some(read + 1)),
        PollStep::ReadTranscript(offset) if offset == read
    ));
    assert!(matches!(monitor.transcript_read(None), PollStep::ReadClock));
    assert!(matches!(
        monitor.transcript_read(Some(Vec::new())),
        PollStep::ReadClock
    ));
    assert_eq!(monitor.transcript_offset(), read);
    assert!(monitor.clock_read(0));
    monitor.prompt_submitted(&codex(12, 1, &[]), 7);
    assert!(!monitor.clock_read(8 + PROMPT_SUBMISSION_GRACE));
}

#[test]
fn a_shell_id_beyond_the_signed_range_has_no_processes() {
    let mut monitor = ActivityMonitor::default();
    assert!(matches!(
        monitor.is_prompt_running(u32::MAX, &table()),
        PollStep::Answer(false)
    ));
}

#[test]
fn the_upper_one_of_two_is_found() {
    for _ in 0..20 {
        let mut table = HashMap::new();
        table.insert(20, info(10, "codex", &[], Some("/upper")));
        table.insert(21, info(20, "zsh", &[], None));
        table.insert(22, info(21, "codex", &[], Some("/lower")));
        assert_eq!(codex_process(10, &table).unwrap().id, 20);
        assert_eq!(codex_process(20, &table).unwrap().id, 22);
        let mut table = HashMap::new();
        table.insert(30, info(10, "node", &["codex"], Some("/upper")));
        table.insert(31, info(30, "node", &["codex"], Some("/lower")));
        assert_eq!(codex_process(10, &table).unwrap().id, 30);
    }
}

#[test]
fn reading_a_transcript_once_more_changes_nothing() {
    let content = [line(STARTED), b"{\"type\"".to_vec()].concat();
    let mut monitor = ActivityMonitor::default();
    assert!(poll(&mut monitor, &table(), Some(b"/t"), &content, 0));
    assert!(poll(&mut monitor, &table(), Some(b"/t"), &content, 0));
    assert_eq!(monitor.transcript_offset(), content.len() as u64);
}
