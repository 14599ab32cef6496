use rioterm::process::{is_codex_launcher, is_native_codex, needs_directory, ProcessInfo};
use rioterm::report::{
    argument_buffer_size, directory_from_path, enter_process, listed_pids, pid_slots, process_arguments,
    process_info, process_name, to_pid, wants_arguments, ProcessReport,
};
use rioterm::split::split_bytes;
use rioterm::text::{
    begins_with, characters, decimal, file_name, same_text, spells_ignoring_case, zero_padded,
};
use std::collections::HashMap;
use std::path::Path;

#[test]
fn decimal_numbers() {
    for n in [0u64, 7, 10, 99, 100, 1234567890, u64::MAX] {
        assert_eq!(decimal(n), format!("{n}"));
    }
}

#[test]
fn zero_padded_numbers() {
    for n in [0i32, 7, 12, 123, 2024, 12345, -1, -12, -1234, i32::MAX, i32::MIN] {
        assert_eq!(zero_padded(n, 4), format!("{n:04}"));
        assert_eq!(zero_padded(n, 2), format!("{n:02}"));
    }
    assert_eq!(zero_padded(-5, 0), "-5");
    assert_eq!(zero_padded(5, 0), "5");
}

#[test]
fn texts_are_compared_by_character() {
    assert_eq!(characters("aß"), vec!['a', 'ß']);
    assert!(same_text("codex", "codex"));
    assert!(!same_text("codex", "codey"));
    assert!(!same_text("codex", "code"));
    assert!(same_text("", ""));
    assert!(begins_with("codex-cli", "codex-"));
    assert!(begins_with("codex-", "codex-"));
    assert!(!begins_with("codex", "codex-"));
    assert!(!begins_with("xcodex-", "codex-"));
    assert!(spells_ignoring_case(&vec!['C', 'o', 'd', 'e', 'X'], "codex"));
    assert!(!spells_ignoring_case(&vec!['Z', '['], "z{"));
}

#[test]
fn file_names_are_those_of_the_standard_library() {
    for path in [
        "", "/", "//", ".", "..", "a", "/a", "a/", "a//", "a/.", "a/./", "a/..", "a/../b", "./a",
        "/usr/local/bin/codex", "/usr/bin/codex/", "codex.js", "...", "a/...", ".hidden", "./.",
        "/.", "/..", "a b/c d", "ß/ü",
    ] {
        let expected = Path::new(path).file_name().map(|name| name.to_str().unwrap().to_string());
        let found = file_name(path).map(|name| name.into_iter().collect::<String>());
        assert_eq!(found, expected, "{path:?}");
    }
}

#[test]
fn bytes_are_cut_at_the_separator() {
    assert_eq!(split_bytes(b"", 10), vec![Vec::<u8>::new()]);
    assert_eq!(split_bytes(b"ab", 10), vec![b"ab".to_vec()]);
    assert_eq!(
        split_bytes(b"a\n\nb\n", 10),
        vec![b"a".to_vec(), Vec::new(), b"b".to_vec(), Vec::new()]
    );
}

#[test]
fn process_ids_keep_their_bits() {
    for id in [0u32, 1, 77, i32::MAX as u32, i32::MAX as u32 + 1, u32::MAX] {
        assert_eq!(to_pid(id), id as i32);
    }
}

#[test]
fn a_listing_gets_one_slot_more() {
    assert_eq!(pid_slots(-1), None);
    assert_eq!(pid_slots(0), None);
    assert_eq!(pid_slots(1), Some(1));
    assert_eq!(pid_slots(40), Some(11));
}

#[test]
fn a_listing_holds_positive_ids() {
    let slots = vec![0, 5, -3, 9, 4];
    assert_eq!(listed_pids(&slots, 0), Vec::<i32>::new());
    assert_eq!(listed_pids(&slots, -4), Vec::<i32>::new());
    assert_eq!(listed_pids(&slots, 8), vec![5]);
    assert_eq!(listed_pids(&slots, 19), vec![5, 9]);
    assert_eq!(listed_pids(&slots, 400), vec![5, 9, 4]);
}

#[test]
fn names_end_at_a_zero_and_are_lowered() {
    assert_eq!(process_name(b"CodeX\0junk"), "codex");
    assert_eq!(process_name(b"Node"), "node");
    assert_eq!(process_name(b"\0x"), "");
    assert_eq!(process_name(b"A\xffB"), "a\u{fffd}b");
    assert_eq!(process_name("ÄB".as_bytes()), "Äb");
}

#[test]
fn directories_keep_their_case() {
    assert_eq!(directory_from_path(b"/Users/Me\0\0\0"), "/Users/Me");
    assert_eq!(directory_from_path(b"/a\xfe"), "/a\u{fffd}");
}

#[test]
fn only_some_command_lines_are_read() {
    assert!(wants_arguments("node"));
    assert!(wants_arguments("codex"));
    assert!(!wants_arguments("codex-cli"));
    assert!(!wants_arguments("zsh"));
}

#[test]
fn a_report_becomes_an_entry() {
    let info = process_info(&ProcessReport {
        parent_id: u32::MAX,
        command: b"Node\0\0".to_vec(),
        start_seconds: 12,
        start_microseconds: 34,
    });
    assert_eq!(info.parent_id, -1);
    assert_eq!(info.name, "node");
    assert!(info.arguments.is_empty());
    assert_eq!(info.started_at, 12_000_034_000);
    assert_eq!(info.current_directory, None);
}

#[test]
fn an_argument_block_needs_more_than_its_count() {
    assert_eq!(argument_buffer_size(0, 5), Some(5));
    assert_eq!(argument_buffer_size(0, 4), None);
    assert_eq!(argument_buffer_size(-1, 100), None);
}

#[test]
fn arguments_stand_between_zeros() {
    let mut block = vec![2u8, 0, 0, 0];
    block.extend_from_slice(b"/bin/Node\0\0RESUME\0\xff\xfe\0x");
    let size = block.len();
    block.extend_from_slice(b"beyond");
    assert_eq!(
        process_arguments(0, &block, size),
        vec!["/bin/node", "", "resume", "x"]
    );
    assert_eq!(process_arguments(0, &block, 4), vec![""]);
    assert!(process_arguments(1, &block, 0).is_empty());
}

fn info(name: &str, arguments: &[&str]) -> ProcessInfo {
    ProcessInfo {
        parent_id: 1,
        name: name.to_string(),
        arguments: arguments.iter().map(|a| a.to_string()).collect(),
        started_at: 0,
        current_directory: None,
    }
}

#[test]
fn codex_is_known_by_its_name() {
    assert!(is_native_codex(&info("codex", &[])));
    assert!(is_native_codex(&info("codex-x86", &[])));
    assert!(!is_native_codex(&info("codexer", &[])));
    assert!(!is_native_codex(&info("node", &["codex"])));
}

#[test]
fn launchers_are_known_by_an_argument() {
    assert!(is_codex_launcher(&info("node", &["node", "/opt/bin/codex"])));
    assert!(is_codex_launcher(&info("node", &["/lib/CODEX.JS"])));
    assert!(is_codex_launcher(&info("node", &["codex/"])));
    assert!(!is_codex_launcher(&info("node", &["/opt/codex/main.js"])));
    assert!(!is_codex_launcher(&info("node", &[])));
    assert!(needs_directory(&info("node", &["codex.js"])));
    assert!(needs_directory(&info("codex", &[])));
    assert!(!needs_directory(&info("node", &["x"])));
}

fn report(command: &[u8]) -> ProcessReport {
    ProcessReport {
        parent_id: 7,
        command: command.to_vec(),
        start_seconds: 1,
        start_microseconds: 2,
    }
}

#[test]
fn processes_are_entered_in_a_table() {
    let arguments = || vec!["/bin/codex".to_string()];
    let directory = || Some("/work".to_string());
    let mut table = HashMap::new();
    enter_process(&mut table, 1, Some(report(b"node\0")), arguments(), directory());
    enter_process(&mut table, 2, Some(report(b"zsh\0")), arguments(), directory());
    enter_process(&mut table, 3, Some(report(b"codex-cli\0")), arguments(), directory());
    enter_process(&mut table, 4, Some(report(b"node\0")), vec!["x".to_string()], directory());
    enter_process(&mut table, 5, None, arguments(), directory());
    assert_eq!(table.len(), 4);
    assert_eq!(table[&1].parent_id, 7);
    assert_eq!(table[&1].started_at, 1_000_002_000);
    assert_eq!(table[&1].arguments, arguments());
    assert_eq!(table[&1].current_directory, directory());
    assert!(table[&2].arguments.is_empty());
    assert_eq!(table[&2].current_directory, None);
    assert_eq!(table[&3].name, "codex-cli");
    assert!(table[&3].arguments.is_empty());
    assert_eq!(table[&3].current_directory, directory());
    assert_eq!(table[&4].arguments, vec!["x"]);
    assert_eq!(table[&4].current_directory, None);
    enter_process(&mut table, 1, Some(report(b"zsh\0")), arguments(), directory());
    assert_eq!(table[&1].name, "zsh");
}
