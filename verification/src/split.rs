//! Cutting a sequence at a separator.

use vstd::prelude::*;

verus! {

/// The pieces of `s` between the occurrences of `sep`. There is always at least
/// one piece, and one more than there are separators.
pub open spec fn pieces<T>(s: Seq<T>, sep: T) -> Seq<Seq<T>>
    decreases s.len(),
{
    if s.len() == 0 {
        seq![Seq::empty()]
    } else {
        let before = pieces(s.drop_last(), sep);
        if s.last() == sep {
            before.push(Seq::empty())
        } else {
            before.update(before.len() - 1, before.last().push(s.last()))
        }
    }
}

/// The pieces that a separator ends.
pub open spec fn ended_pieces<T>(s: Seq<T>, sep: T) -> Seq<Seq<T>> {
    pieces(s, sep).drop_last()
}

/// What follows the last separator, or everything where there is none.
pub open spec fn open_piece<T>(s: Seq<T>, sep: T) -> Seq<T> {
    pieces(s, sep).last()
}

/// A sequence has at least one piece, and none holds the separator.
pub proof fn lemma_pieces_shape<T>(s: Seq<T>, sep: T)
    ensures
        pieces(s, sep).len() >= 1,
        forall|k: int|
            0 <= k < pieces(s, sep).len() ==> !(#[trigger] pieces(s, sep)[k]).contains(sep),
    decreases s.len(),
{
    if s.len() > 0 {
        lemma_pieces_shape(s.drop_last(), sep);
        let before = pieces(s.drop_last(), sep);
        assert(!before.last().contains(sep));
        assert forall|k: int| 0 <= k < pieces(s, sep).len() implies !(#[trigger] pieces(
            s,
            sep,
        )[k]).contains(sep) by {
            if s.last() == sep {
                if k < before.len() {
                    assert(pieces(s, sep)[k] == before[k]);
                }
            } else if k < before.len() - 1 {
                assert(pieces(s, sep)[k] == before[k]);
            } else {
                let grown = before.last().push(s.last());
                assert(pieces(s, sep)[k] == grown);
                if grown.contains(sep) {
                    let j = choose|j: int| 0 <= j < grown.len() && grown[j] == sep;
                    assert(before.last()[j] == sep);
                }
            }
        }
    }
}

/// The open piece is what stands behind the last separator: it ends the sequence, it
/// holds no separator, and a separator stands before it unless it is the whole.
pub proof fn lemma_open_piece<T>(s: Seq<T>, sep: T)
    ensures
        open_piece(s, sep).len() <= s.len(),
        open_piece(s, sep) == s.skip(s.len() - open_piece(s, sep).len()),
        !open_piece(s, sep).contains(sep),
        open_piece(s, sep).len() < s.len() ==> s[s.len() - open_piece(s, sep).len() - 1] == sep,
    decreases s.len(),
{
    let open = open_piece(s, sep);
    lemma_pieces_shape(s, sep);
    assert(!pieces(s, sep)[pieces(s, sep).len() - 1].contains(sep));
    if s.len() > 0 {
        let shorter = s.drop_last();
        lemma_pieces_shape(shorter, sep);
        lemma_open_piece(shorter, sep);
        if s.last() != sep {
            assert(open == open_piece(shorter, sep).push(s.last()));
        }
    }
    assert(open =~= s.skip(s.len() - open.len()));
}

/// A sequence without the separator is its own only piece.
pub proof fn lemma_pieces_without_separator<T>(s: Seq<T>, sep: T)
    requires
        !s.contains(sep),
    ensures
        pieces(s, sep) == seq![s],
    decreases s.len(),
{
    if s.len() > 0 {
        assert(s.last() == s[s.len() - 1]);
        assert forall|j: int| 0 <= j < s.drop_last().len() implies s.drop_last()[j] != sep by {
            assert(s[j] == s.drop_last()[j]);
        }
        lemma_pieces_without_separator(s.drop_last(), sep);
        assert(s.drop_last().push(s.last()) =~= s);
    } else {
        assert(s =~= Seq::empty());
    }
    assert(pieces(s, sep) =~= seq![s]);
}

/// Cutting a sequence in two stages gives the same pieces as cutting it at once:
/// the ended pieces of the first part stay, and its open piece goes on into the
/// second part.
pub proof fn lemma_pieces_of_concatenation<T>(a: Seq<T>, b: Seq<T>, sep: T)
    ensures
        pieces(a + b, sep) == ended_pieces(a, sep) + pieces(open_piece(a, sep) + b, sep),
    decreases b.len(),
{
    lemma_pieces_shape(a, sep);
    let rest = open_piece(a, sep);
    if b.len() == 0 {
        assert(a + b =~= a);
        assert(rest + b =~= rest);
        assert(pieces(a, sep)[pieces(a, sep).len() - 1] == rest);
        lemma_pieces_without_separator(rest, sep);
        assert(pieces(a, sep) =~= ended_pieces(a, sep) + seq![rest]);
    } else {
        lemma_pieces_of_concatenation(a, b.drop_last(), sep);
        lemma_pieces_shape(rest + b.drop_last(), sep);
        assert((a + b).drop_last() =~= a + b.drop_last());
        assert((rest + b).drop_last() =~= rest + b.drop_last());
        assert(pieces(a + b, sep) =~= ended_pieces(a, sep) + pieces(rest + b, sep));
    }
}

/// The first piece is what stands before the first separator, and the other pieces are
/// those of what stands behind it.
pub proof fn lemma_first_piece<T>(first: Seq<T>, rest: Seq<T>, sep: T)
    requires
        !first.contains(sep),
    ensures
        pieces(first.push(sep) + rest, sep) == seq![first] + pieces(rest, sep),
{
    let head = first.push(sep);
    lemma_pieces_without_separator(first, sep);
    assert(head.drop_last() =~= first);
    assert(pieces(head, sep) =~= seq![first].push(Seq::empty()));
    lemma_pieces_of_concatenation(head, rest, sep);
    assert(ended_pieces(head, sep) =~= seq![first]);
    assert(open_piece(head, sep) + rest =~= rest);
}

/// Cuts bytes at every `sep`.
pub fn split_bytes(data: &[u8], sep: u8) -> (cut: Vec<Vec<u8>>)
    ensures
        cut@.len() >= 1,
        cut@.map_values(|piece: Vec<u8>| piece@) == pieces(data@, sep),
{
    let mut ended: Vec<Vec<u8>> = Vec::new();
    let mut open: Vec<u8> = Vec::new();
    let mut i: usize = 0;
    assert(ended@.map_values(|piece: Vec<u8>| piece@).push(open@) =~= seq![Seq::<u8>::empty()]);
    while i < data.len()
        invariant
            i <= data@.len(),
            ended@.map_values(|piece: Vec<u8>| piece@).push(open@) == pieces(
                data@.take(i as int),
                sep,
            ),
        decreases data@.len() - i,
    {
        let byte = data[i];
        let ghost before = pieces(data@.take(i as int), sep);
        let ghost ended_before = ended@;
        proof {
            assert(data@.take(i + 1).drop_last() =~= data@.take(i as int));
            assert(data@.take(i + 1).last() == byte);
        }
        if byte == sep {
            ended.push(open);
            open = Vec::new();
            assert(ended@.map_values(|piece: Vec<u8>| piece@) =~= before);
        } else {
            open.push(byte);
        }
        i = i + 1;
        assert(ended@.map_values(|piece: Vec<u8>| piece@).push(open@) =~= pieces(
            data@.take(i as int),
            sep,
        ));
    }
    assert(data@.take(i as int) =~= data@);
    let ghost all_ended = ended@;
    ended.push(open);
    assert(ended@.map_values(|piece: Vec<u8>| piece@) =~= all_ended.map_values(
        |piece: Vec<u8>| piece@,
    ).push(open@));
    ended
}

} // verus!
