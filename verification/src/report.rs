//! Reading what the operating system reports of its processes.

use std::collections::HashMap;
use vstd::prelude::*;
use vstd::utf8;

use crate::process;
use crate::process::ProcessInfo;
use crate::split;
use crate::text;

verus! {

broadcast use vstd::std_specs::hash::group_hash_axioms;

/// The bytes that one process id takes in a listing.
pub const PID_SIZE: usize = 4;

/// The bytes before the first argument in a process's argument block: their count.
pub const ARGUMENT_COUNT_SIZE: usize = 4;

/// `String::from_utf8_lossy`: the text of bytes, in which every stretch that is not
/// UTF-8 is replaced by the replacement character.
pub uninterp spec fn lossy_text(bytes: Seq<u8>) -> Seq<char>;

/// `String::from_utf8_lossy`. What it returns is decided by the bytes alone and goes
/// by the name `lossy_text`. Bytes that are UTF-8 come out as the characters that
/// they encode. How many replacement characters stand for other bytes is left unsaid.
#[verifier::external_body]
fn decode_lossy(bytes: &[u8]) -> (text: String)
    ensures
        text@ == lossy_text(bytes@),
        utf8::valid_utf8(bytes@) ==> text@ == utf8::decode_utf8(bytes@),
{
    String::from_utf8_lossy(bytes).into_owned()
}

/// `String::from_utf8`: the characters that the bytes encode, or nothing where they
/// are not UTF-8.
#[verifier::external_body]
fn decode(bytes: Vec<u8>) -> (text: Option<String>)
    ensures
        match text {
            Some(characters) => utf8::valid_utf8(bytes@) && characters@ == utf8::decode_utf8(bytes@),
            None => !utf8::valid_utf8(bytes@),
        },
{
    String::from_utf8(bytes).ok()
}

/// What the operating system reports of one process.
pub struct ProcessReport {
    pub parent_id: u32,
    /// The field of the command name, up to and beyond its terminating zero.
    pub command: Vec<u8>,
    /// When the process started: whole seconds since the Unix epoch.
    pub start_seconds: u64,
    /// When the process started: microseconds on top of the seconds.
    pub start_microseconds: u64,
}

/// A process id as the signed number of the same bits.
pub open spec fn signed_pid(id: u32) -> int {
    if id <= i32::MAX {
        id as int
    } else {
        id - 0x1_0000_0000
    }
}

/// A process id as the signed number of the same bits.
pub fn to_pid(id: u32) -> (pid: i32)
    ensures
        pid == signed_pid(id),
{
    if id <= 0x7fff_ffff {
        id as i32
    } else {
        (id as i64 - 0x1_0000_0000) as i32
    }
}

/// How many process ids to make room for, when the listing asks for this many bytes:
/// those that fit and one more. Nothing where the listing failed.
pub fn pid_slots(requested_size: i32) -> (slots: Option<usize>)
    ensures
        match slots {
            Some(count) => requested_size > 0 && count == requested_size as int / PID_SIZE as int
                + 1,
            None => requested_size <= 0,
        },
{
    if requested_size <= 0 {
        None
    } else {
        Some(requested_size as usize / PID_SIZE + 1)
    }
}

/// The process ids of a listing that filled this many bytes of the slots: the
/// positive ones, in order.
pub open spec fn filled_pids(slots: Seq<i32>, actual_size: int) -> Seq<i32> {
    let count = if actual_size <= 0 {
        0
    } else {
        actual_size / PID_SIZE as int
    };
    slots.take(
        if count < slots.len() {
            count
        } else {
            slots.len() as int
        },
    ).filter(|pid: i32| pid > 0)
}

/// The process ids of a listing that filled this many bytes of the slots.
pub fn listed_pids(slots: &Vec<i32>, actual_size: i32) -> (pids: Vec<i32>)
    ensures
        pids@ == filled_pids(slots@, actual_size as int),
{
    let count: usize = if actual_size <= 0 {
        0
    } else {
        actual_size as usize / PID_SIZE
    };
    let mut pids: Vec<i32> = Vec::new();
    let mut i: usize = 0;
    let ghost positive = |pid: i32| pid > 0;
    proof {
        reveal(Seq::filter);
        assert(slots@.take(0).filter(positive) =~= Seq::empty());
    }
    while i < count && i < slots.len()
        invariant
            i <= count,
            i <= slots@.len(),
            positive == |pid: i32| pid > 0,
            pids@ == slots@.take(i as int).filter(positive),
        decreases slots@.len() - i,
    {
        proof {
            assert(slots@.take(i + 1) =~= slots@.take(i as int).push(slots@[i as int]));
            slots@.take(i as int).lemma_filter_push(slots@[i as int], positive);
        }
        if slots[i] > 0 {
            pids.push(slots[i]);
        }
        i = i + 1;
    }
    pids
}

/// The bytes of a field before its terminating zero, or all of them where there is
/// none.
pub open spec fn before_zero(field: Seq<u8>) -> Seq<u8> {
    split::pieces(field, 0)[0]
}

fn field_text(field: &[u8]) -> (text: String)
    ensures
        text@ == lossy_text(before_zero(field@)),
        utf8::valid_utf8(before_zero(field@)) ==> text@ == utf8::decode_utf8(before_zero(field@)),
{
    let cut = split::split_bytes(field, 0);
    assert(cut@.map_values(|piece: Vec<u8>| piece@)[0] == cut@[0]@);
    decode_lossy(cut[0].as_slice())
}

/// The command name of a process, in lower case, from the field that holds it.
pub fn process_name(command: &[u8]) -> (name: String)
    ensures
        name@ == text::lower(lossy_text(before_zero(command@))),
        utf8::valid_utf8(before_zero(command@)) ==> name@ == text::lower(
            utf8::decode_utf8(before_zero(command@)),
        ),
{
    field_text(command).as_str().to_ascii_lowercase()
}

/// The working directory of a process, from the field that holds its path.
pub fn directory_from_path(path: &[u8]) -> (directory: String)
    ensures
        directory@ == lossy_text(before_zero(path@)),
        utf8::valid_utf8(before_zero(path@)) ==> directory@ == utf8::decode_utf8(
            before_zero(path@),
        ),
{
    field_text(path)
}

/// Whether the command line of a process with this name has to be read.
pub open spec fn is_name_with_arguments(name: Seq<char>) -> bool {
    name == "node"@ || name == "codex"@
}

/// Whether the command line of a process with this name has to be read.
pub fn wants_arguments(name: &str) -> (wanted: bool)
    ensures
        wanted == is_name_with_arguments(name@),
{
    text::same_text(name, "node") || text::same_text(name, "codex")
}

/// What the table holds of a process before its command line and its directory are
/// looked up.
pub fn process_info(report: &ProcessReport) -> (info: ProcessInfo)
    ensures
        info.parent_id == signed_pid(report.parent_id),
        info.name@ == text::lower(lossy_text(before_zero(report.command@))),
        utf8::valid_utf8(before_zero(report.command@)) ==> info.name@ == text::lower(
            utf8::decode_utf8(before_zero(report.command@)),
        ),
        info.arguments@.len() == 0,
        info.started_at == report.start_seconds * 1_000_000_000 + report.start_microseconds * 1_000,
        info.current_directory is None,
{
    ProcessInfo {
        parent_id: to_pid(report.parent_id),
        name: process_name(report.command.as_slice()),
        arguments: Vec::new(),
        started_at: report.start_seconds as i128 * 1_000_000_000 + report.start_microseconds as i128
            * 1_000,
        current_directory: None,
    }
}

/// Whether `info` is what the table holds of a process that this was reported of. The
/// command line is held only where the name asks for it, and the directory only of a
/// Codex program or a launcher of one.
pub open spec fn is_entry(
    info: ProcessInfo,
    report: ProcessReport,
    arguments: Seq<String>,
    directory: Option<String>,
) -> bool {
    &&& info.parent_id == signed_pid(report.parent_id)
    &&& info.name@ == text::lower(lossy_text(before_zero(report.command@)))
    &&& utf8::valid_utf8(before_zero(report.command@)) ==> info.name@ == text::lower(
        utf8::decode_utf8(before_zero(report.command@)),
    )
    &&& info.arguments@ == if is_name_with_arguments(info.name@) {
        arguments
    } else {
        Seq::empty()
    }
    &&& info.started_at == report.start_seconds * 1_000_000_000 + report.start_microseconds * 1_000
    &&& info.current_directory == if process::is_native(info) || process::is_launcher(info) {
        directory
    } else {
        None
    }
}

/// Enters a process in a table: what was reported of it, its command line and its
/// directory. A process of which no whole report could be read is left out.
pub fn enter_process(
    processes: &mut HashMap<i32, ProcessInfo>,
    pid: i32,
    report: Option<ProcessReport>,
    arguments: Vec<String>,
    directory: Option<String>,
)
    ensures
        match report {
            Some(known) => {
                &&& final(processes)@ == old(processes)@.insert(pid, final(processes)@[pid])
                &&& is_entry(final(processes)@[pid], known, arguments@, directory)
            },
            None => final(processes)@ == old(processes)@,
        },
{
    if let Some(known) = report {
        let mut info = process_info(&known);
        if wants_arguments(info.name.as_str()) {
            info.arguments = arguments;
        }
        if process::needs_directory(&info) {
            info.current_directory = directory;
        }
        assert(info.arguments@ =~= if is_name_with_arguments(info.name@) {
            arguments@
        } else {
            Seq::empty()
        });
        processes.insert(pid, info);
    }
}

/// How large a buffer the argument block of a process needs. Nothing where asking
/// for the size failed, or where the block holds no more than the count.
pub fn argument_buffer_size(result: i32, size: usize) -> (needed: Option<usize>)
    ensures
        match needed {
            Some(length) => result == 0 && size > ARGUMENT_COUNT_SIZE && length == size,
            None => result != 0 || size <= ARGUMENT_COUNT_SIZE,
        },
{
    if result != 0 || size <= ARGUMENT_COUNT_SIZE {
        None
    } else {
        Some(size)
    }
}

/// One argument of a command line, in lower case, if its bytes are UTF-8.
pub open spec fn argument_text(bytes: Seq<u8>) -> Option<Seq<char>> {
    if utf8::valid_utf8(bytes) {
        Some(text::lower(utf8::decode_utf8(bytes)))
    } else {
        None
    }
}

/// The command line in an argument block: what stands between zeros behind the
/// count, in lower case, without what is not UTF-8.
pub open spec fn block_arguments(block: Seq<u8>) -> Seq<Seq<char>> {
    split::pieces(block.skip(ARGUMENT_COUNT_SIZE as int), 0).filter_map(
        |piece: Seq<u8>| argument_text(piece),
    )
}

/// The command line of a process, from the first `size` bytes of the buffer that its
/// argument block was read into. Empty where reading the block failed.
pub fn process_arguments(result: i32, buffer: &[u8], size: usize) -> (arguments: Vec<String>)
    requires
        result == 0 ==> ARGUMENT_COUNT_SIZE <= size <= buffer@.len(),
    ensures
        arguments@.map_values(|argument: String| argument@) == if result != 0 {
            Seq::empty()
        } else {
            block_arguments(buffer@.take(size as int))
        },
{
    let mut arguments: Vec<String> = Vec::new();
    if result != 0 {
        assert(arguments@.map_values(|argument: String| argument@) =~= Seq::empty());
        return arguments;
    }
    let block = vstd::slice::slice_subrange(buffer, ARGUMENT_COUNT_SIZE, size);
    let cut = split::split_bytes(block, 0);
    let ghost found = cut@.map_values(|piece: Vec<u8>| piece@);
    let ghost reading = |piece: Seq<u8>| argument_text(piece);
    let mut i: usize = 0;
    assert(block@ =~= buffer@.take(size as int).skip(ARGUMENT_COUNT_SIZE as int));
    assert(arguments@.map_values(|argument: String| argument@) =~= found.take(0).filter_map(
        reading,
    ));
    while i < cut.len()
        invariant
            i <= cut@.len(),
            found == cut@.map_values(|piece: Vec<u8>| piece@),
            reading == |piece: Seq<u8>| argument_text(piece),
            arguments@.map_values(|argument: String| argument@) == found.take(i as int).filter_map(
                reading,
            ),
        decreases cut@.len() - i,
    {
        let ghost before = arguments@;
        let piece = cut[i].clone();
        proof {
            assert(piece@ =~= found[i as int]);
            found.lemma_filter_map_take_succ(reading, i as int);
        }
        if let Some(argument) = decode(piece) {
            arguments.push(argument.as_str().to_ascii_lowercase());
        }
        assert(arguments@.map_values(|argument: String| argument@) =~= found.take(
            i + 1,
        ).filter_map(reading));
        i = i + 1;
    }
    assert(found.take(i as int) =~= found);
    arguments
}

} // verus!
