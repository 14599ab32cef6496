//! What holds of numbers, letters and paths in text.

use vstd::prelude::*;

use crate::split;
use crate::text;

verus! {

/// Whether a character is a decimal digit.
pub open spec fn is_digit(c: char) -> bool {
    '0' <= c <= '9'
}

/// The number that digits spell.
pub open spec fn spelled_number(digits: Seq<char>) -> nat
    decreases digits.len(),
{
    if digits.len() == 0 {
        0
    } else {
        (10 * spelled_number(digits.drop_last()) + (digits.last() as int - '0' as int)) as nat
    }
}

/// Reading a number in decimal notation gives the number back. The notation has digits
/// only, at least one, and it begins with a zero only for zero itself.
pub proof fn lemma_decimal_is_read_back(n: nat)
    ensures
        text::decimal_digits(n).len() >= 1,
        forall|i: int|
            0 <= i < text::decimal_digits(n).len() ==> is_digit(
                #[trigger] text::decimal_digits(n)[i],
            ),
        spelled_number(text::decimal_digits(n)) == n,
        n > 0 ==> text::decimal_digits(n)[0] != '0',
        n == 0 ==> text::decimal_digits(n).len() == 1,
    decreases n,
{
    let digits = text::decimal_digits(n);
    if n < 10 {
        assert(digits.drop_last() =~= Seq::empty());
        assert(digits.last() == text::digit_char(n));
        assert(spelled_number(digits.drop_last()) == 0);
    } else {
        lemma_decimal_is_read_back(n / 10);
        assert(digits.drop_last() =~= text::decimal_digits(n / 10));
        assert(digits.last() == text::digit_char(n % 10));
    }
}

/// Zeros before digits do not change the number that they spell.
proof fn lemma_leading_zeros(count: nat, digits: Seq<char>)
    ensures
        spelled_number(Seq::new(count, |i: int| '0') + digits) == spelled_number(digits),
    decreases count + digits.len(),
{
    let zeros = Seq::new(count, |i: int| '0');
    let whole = zeros + digits;
    if digits.len() > 0 {
        lemma_leading_zeros(count, digits.drop_last());
        assert(whole.drop_last() =~= zeros + digits.drop_last());
    } else if count > 0 {
        lemma_leading_zeros((count - 1) as nat, digits);
        assert(whole.drop_last() =~= Seq::new((count - 1) as nat, |i: int| '0') + digits);
        assert(spelled_number(digits) == 0);
    } else {
        assert(whole =~= digits);
    }
}

/// A number that is filled up with zeros is read back as the number. It has at least as
/// many characters as were asked for, and where it has more it begins with no zero, but
/// for zero itself.
pub proof fn lemma_padded_number_is_read_back(n: nat, width: int)
    ensures
        ({
            let padded = text::zero_padded_digits(n as int, width);
            &&& padded.len() >= width
            &&& padded.len() >= 1
            &&& spelled_number(padded) == n
            &&& forall|i: int| 0 <= i < padded.len() ==> is_digit(#[trigger] padded[i])
            &&& padded.len() > width && n > 0 ==> padded[0] != '0'
            &&& padded.len() > width && n == 0 ==> padded.len() == 1
        }),
{
    lemma_decimal_is_read_back(n);
    let digits = text::decimal_digits(n);
    if digits.len() < width {
        lemma_leading_zeros((width - digits.len()) as nat, digits);
        assert forall|i: int| 0 <= i < text::zero_padded_digits(n as int, width).len() implies is_digit(
            #[trigger] text::zero_padded_digits(n as int, width)[i],
        ) by {
            if i >= width - digits.len() {
                assert(is_digit(digits[i - (width - digits.len())]));
            }
        }
    } else {
        assert forall|i: int| 0 <= i < text::zero_padded_digits(n as int, width).len() implies is_digit(
            #[trigger] text::zero_padded_digits(n as int, width)[i],
        ) by {
            assert(is_digit(digits[i]));
        }
    }
}

/// A negative number is a minus sign and the number without it, which takes one
/// character less.
pub proof fn lemma_minus_stands_before_the_zeros(n: int, width: int)
    requires
        n < 0,
    ensures
        text::zero_padded_digits(n, width) == seq!['-'] + text::zero_padded_digits(-n, width - 1),
{
}

/// Lowering keeps the number of characters. Each capital letter of ASCII becomes the
/// letter that stands thirty-two places on, and every other character stays.
pub proof fn lemma_lowering_is_by_character(characters: Seq<char>, i: int)
    requires
        0 <= i < characters.len(),
    ensures
        text::lower(characters).len() == characters.len(),
        'A' <= characters[i] <= 'Z' ==> text::lower(characters)[i] as int == characters[i] as int
            + 32,
        !('A' <= characters[i] <= 'Z') ==> text::lower(characters)[i] == characters[i],
{
}

/// Text that is lowered has no capital letter of ASCII, so lowering it again changes
/// nothing.
pub proof fn lemma_lowering_twice(characters: Seq<char>)
    ensures
        text::lower(characters).len() == characters.len(),
        forall|i: int|
            0 <= i < characters.len() ==> !('A' <= (#[trigger] text::lower(characters)[i]) <= 'Z'),
        text::lower(text::lower(characters)) == text::lower(characters),
{
    assert(text::lower(text::lower(characters)) =~= text::lower(characters));
}

/// Whether a path goes into a directory: nothing stands before, or a slash does.
pub open spec fn is_directory_part(path: Seq<char>) -> bool {
    path.len() == 0 || path.last() == '/'
}

/// What follows the directory part of a path starts with a piece of its own.
proof fn lemma_pieces_below(directory: Seq<char>, name: Seq<char>)
    requires
        is_directory_part(directory),
        !name.contains('/'),
    ensures
        split::pieces(directory + name, '/') == split::ended_pieces(directory, '/').push(name),
{
    split::lemma_pieces_of_concatenation(directory, name, '/');
    split::lemma_pieces_shape(directory, '/');
    if directory.len() > 0 {
        split::lemma_pieces_shape(directory.drop_last(), '/');
    }
    assert(split::open_piece(directory, '/') =~= Seq::empty());
    assert(split::open_piece(directory, '/') + name =~= name);
    split::lemma_pieces_without_separator(name, '/');
    assert(split::pieces(directory + name, '/') =~= split::ended_pieces(directory, '/').push(name));
}

/// The final component of a path is the name behind the last slash, whatever stands
/// before it. The parent directory is no name.
pub proof fn lemma_name_below_a_directory(directory: Seq<char>, name: Seq<char>)
    requires
        is_directory_part(directory),
        !name.contains('/'),
        name.len() > 0,
        name != seq!['.'],
    ensures
        name != seq!['.', '.'] ==> text::final_component(directory + name) == Some(name),
        name == seq!['.', '.'] ==> text::final_component(directory + name) is None,
{
    lemma_pieces_below(directory, name);
    let cut = split::pieces(directory + name, '/');
    assert(cut.last() == name);
}

/// Slashes at the end of a path do not matter for its final component, nor do single
/// dots behind a slash. A path of nothing else has none.
pub proof fn lemma_end_of_a_path(path: Seq<char>)
    ensures
        text::final_component(path.push('/')) == text::final_component(path),
        text::final_component(path.push('/').push('.')) == text::final_component(path),
        text::final_component(Seq::empty()) is None,
        text::final_component(seq!['.']) is None,
{
    split::lemma_pieces_shape(path, '/');
    let cut = split::pieces(path, '/');
    assert(path.push('/').drop_last() =~= path);
    let slashed = split::pieces(path.push('/'), '/');
    assert(slashed =~= cut.push(Seq::empty()));
    assert(slashed.drop_last() =~= cut);
    assert(path.push('/').push('.').drop_last() =~= path.push('/'));
    let dotted = split::pieces(path.push('/').push('.'), '/');
    assert(Seq::<char>::empty().push('.') =~= seq!['.']);
    assert(dotted =~= cut.push(seq!['.']));
    assert(dotted.drop_last() =~= cut);
    let nothing = split::pieces(Seq::<char>::empty(), '/');
    assert(nothing.last() == Seq::<char>::empty());
    assert(nothing.drop_last() =~= Seq::empty());
    assert(text::last_name(nothing.drop_last()) is None);
    assert(!seq!['.'].contains('/'));
    split::lemma_pieces_without_separator(seq!['.'], '/');
    let dot = split::pieces(seq!['.'], '/');
    assert(dot.last() == seq!['.']);
    assert(dot.drop_last() =~= Seq::empty());
    assert(text::last_name(dot.drop_last()) is None);
}

} // verus!
