//! What the reports of the operating system come to, told by the bytes in them.

use vstd::prelude::*;
use vstd::utf8;

use crate::process;
use crate::process::ProcessInfo;
use crate::report;
use crate::report::ProcessReport;
use crate::split;
use crate::text;

verus! {

/// A signed process id has the bits of the unsigned one: it lies in the signed range, and
/// the two differ by nothing or by all that thirty-two bits count.
pub proof fn lemma_process_id_keeps_its_bits(id: u32)
    ensures
        i32::MIN <= report::signed_pid(id) <= i32::MAX,
        (report::signed_pid(id) - id) % 0x1_0000_0000 == 0,
{
}

/// A listing is read slot by slot, four bytes each: one more slot adds its id behind the
/// others, if that is positive, and changes nothing else.
pub proof fn lemma_listing_is_read_by_slot(slots: Seq<i32>, count: int)
    requires
        0 <= count < slots.len(),
    ensures
        report::filled_pids(slots, 4 * (count + 1)) == if slots[count] > 0 {
            report::filled_pids(slots, 4 * count).push(slots[count])
        } else {
            report::filled_pids(slots, 4 * count)
        },
{
    let positive = |pid: i32| pid > 0;
    assert(slots.take(count + 1) =~= slots.take(count).push(slots[count]));
    slots.take(count).lemma_filter_push(slots[count], positive);
}

/// A listing of no bytes, or one that failed, holds nothing. Bytes that fill no slot add
/// nothing, and neither do bytes beyond the last slot.
pub proof fn lemma_bytes_that_fill_no_slot(slots: Seq<i32>, count: int, more: int, size: int)
    requires
        0 <= count,
        0 <= more < 4,
    ensures
        size <= 0 ==> report::filled_pids(slots, size).len() == 0,
        report::filled_pids(slots, 4 * count + more) == report::filled_pids(slots, 4 * count),
        count >= slots.len() ==> report::filled_pids(slots, 4 * count) == report::filled_pids(
            slots,
            4 * slots.len() as int,
        ),
{
    reveal(Seq::filter);
    assert(slots.take(0) =~= Seq::empty());
}

/// A field ends at its first zero, whatever stands behind that, and at its end where it
/// holds none.
pub proof fn lemma_field_ends_at_a_zero(content: Seq<u8>, rest: Seq<u8>)
    requires
        !content.contains(0),
    ensures
        report::before_zero(content) == content,
        report::before_zero(content.push(0) + rest) == content,
{
    split::lemma_pieces_without_separator(content, 0);
    split::lemma_first_piece(content, rest, 0);
}

/// Behind the four bytes of the count, an argument block is read argument by argument.
/// One that is UTF-8 comes out as its text in lower case, and one that is not is left
/// out; a zero ends it, and what follows is read like the block.
pub proof fn lemma_block_is_read_by_argument(count: Seq<u8>, argument: Seq<u8>, rest: Seq<u8>)
    requires
        count.len() == 4,
        !argument.contains(0),
    ensures
        ({
            let own = if utf8::valid_utf8(argument) {
                seq![text::lower(utf8::decode_utf8(argument))]
            } else {
                Seq::empty()
            };
            &&& report::block_arguments(count + argument) == own
            &&& report::block_arguments(count + (argument.push(0) + rest)) == own
                + report::block_arguments(count + rest)
        }),
{
    assert((count + argument).skip(4) =~= argument);
    assert((count + (argument.push(0) + rest)).skip(4) =~= argument.push(0) + rest);
    assert((count + rest).skip(4) =~= rest);
    split::lemma_pieces_without_separator(argument, 0);
    split::lemma_first_piece(argument, rest, 0);
    lemma_reading_one(argument);
    lemma_reading_one_more(argument, split::pieces(rest, 0));
}

proof fn lemma_reading_one(argument: Seq<u8>)
    ensures
        seq![argument].filter_map(|piece: Seq<u8>| report::argument_text(piece)) == if utf8::valid_utf8(
            argument,
        ) {
            seq![text::lower(utf8::decode_utf8(argument))]
        } else {
            Seq::empty()
        },
{
    let reading = |piece: Seq<u8>| report::argument_text(piece);
    assert(seq![argument].drop_last() =~= Seq::empty());
    assert(seq![argument].last() == argument);
    assert(Seq::<Seq<u8>>::empty().filter_map(reading) =~= Seq::empty());
    assert(seq![argument].filter_map(reading) =~= if utf8::valid_utf8(argument) {
        seq![text::lower(utf8::decode_utf8(argument))]
    } else {
        Seq::empty()
    });
}

proof fn lemma_reading_one_more(argument: Seq<u8>, others: Seq<Seq<u8>>)
    ensures
        (seq![argument] + others).filter_map(|piece: Seq<u8>| report::argument_text(piece))
            == seq![argument].filter_map(|piece: Seq<u8>| report::argument_text(piece))
            + others.filter_map(|piece: Seq<u8>| report::argument_text(piece)),
    decreases others.len(),
{
    let reading = |piece: Seq<u8>| report::argument_text(piece);
    let all = seq![argument] + others;
    if others.len() == 0 {
        assert(all =~= seq![argument]);
        assert(others.filter_map(reading) =~= Seq::empty());
        assert(seq![argument].filter_map(reading) + Seq::empty() =~= seq![argument].filter_map(
            reading,
        ));
    } else {
        lemma_reading_one_more(argument, others.drop_last());
        assert(all.drop_last() =~= seq![argument] + others.drop_last());
        assert(all.last() == others.last());
        assert(all.filter_map(reading) =~= seq![argument].filter_map(reading) + others.filter_map(
            reading,
        ));
    }
}

/// What a table holds of a process is what was reported of it. The command line is kept
/// exactly of processes called `node` or `codex`, and the directory exactly of those
/// that are Codex by their name or by an argument that is kept.
pub proof fn lemma_entry_holds_what_was_reported(
    info: ProcessInfo,
    reported: ProcessReport,
    arguments: Seq<String>,
    directory: Option<String>,
)
    requires
        report::is_entry(info, reported, arguments, directory),
    ensures
        info.parent_id as int == report::signed_pid(reported.parent_id),
        info.name@ == text::lower(report::lossy_text(report::before_zero(reported.command@))),
        info.started_at == reported.start_seconds * 1_000_000_000 + reported.start_microseconds
            * 1_000,
        info.name@ == "node"@ || info.name@ == "codex"@ ==> info.arguments@ == arguments,
        info.name@ != "node"@ && info.name@ != "codex"@ ==> info.arguments@.len() == 0,
        process::is_native(info) || process::is_launcher(info) ==> info.current_directory
            == directory,
        !process::is_native(info) && !process::is_launcher(info) ==> info.current_directory is None,
{
}

/// The command line is read of processes called `node` or `codex`, and of no others.
pub proof fn lemma_whose_arguments_are_read(name: Seq<char>)
    ensures
        report::is_name_with_arguments("node"@),
        report::is_name_with_arguments("codex"@),
        name != "node"@ && name != "codex"@ ==> !report::is_name_with_arguments(name),
{
}

} // verus!
