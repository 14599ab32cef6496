//! Text helpers: decimal numbers, ASCII case, and the last name of a path.

use vstd::prelude::*;

use crate::split;

verus! {

/// The ASCII lower case equivalent of a character.
pub open spec fn lower_char(c: char) -> char {
    if 'A' <= c <= 'Z' {
        ((c as u32) + 32) as char
    } else {
        c
    }
}

/// Text with every ASCII capital replaced by its small letter.
pub open spec fn lower(text: Seq<char>) -> Seq<char> {
    text.map_values(|c: char| lower_char(c))
}

/// `str::to_ascii_lowercase` maps the letters `A` to `Z` to `a` to `z`, and leaves
/// every other character as it is.
pub assume_specification[ str::to_ascii_lowercase ](s: &str) -> (lowered: String)
    ensures
        lowered@ == lower(s@),
;

/// The decimal digits of a number, without leading zeros.
pub open spec fn decimal_digits(n: nat) -> Seq<char>
    decreases n,
{
    if n < 10 {
        seq![digit_char(n)]
    } else {
        decimal_digits(n / 10).push(digit_char(n % 10))
    }
}

/// The character of a single digit.
pub open spec fn digit_char(digit: nat) -> char {
    (('0' as u32) + digit) as char
}

fn digit_text(digit: u64) -> (text: &'static str)
    requires
        digit < 10,
    ensures
        text@ == seq![digit_char(digit as nat)],
{
    proof {
        reveal_strlit("0");
        reveal_strlit("1");
        reveal_strlit("2");
        reveal_strlit("3");
        reveal_strlit("4");
        reveal_strlit("5");
        reveal_strlit("6");
        reveal_strlit("7");
        reveal_strlit("8");
        reveal_strlit("9");
    }
    match digit {
        0 => "0",
        1 => "1",
        2 => "2",
        3 => "3",
        4 => "4",
        5 => "5",
        6 => "6",
        7 => "7",
        8 => "8",
        _ => "9",
    }
}

/// A number in decimal notation.
pub fn decimal(n: u64) -> (text: String)
    ensures
        text@ == decimal_digits(n as nat),
    decreases n,
{
    if n < 10 {
        digit_text(n).to_owned()
    } else {
        let mut text = decimal(n / 10);
        text.append(digit_text(n % 10));
        text
    }
}

/// Zeros put before `digits` until there are `width` characters.
pub open spec fn padded(digits: Seq<char>, width: int) -> Seq<char> {
    if digits.len() < width {
        Seq::new((width - digits.len()) as nat, |i: int| '0') + digits
    } else {
        digits
    }
}

/// A number in decimal notation, filled up with zeros to at least `width`
/// characters. A minus sign stands before the zeros and counts as a character.
pub open spec fn zero_padded_digits(n: int, width: int) -> Seq<char> {
    if n < 0 {
        seq!['-'] + padded(decimal_digits((-n) as nat), width - 1)
    } else {
        padded(decimal_digits(n as nat), width)
    }
}

/// `n` in decimal notation, filled up with zeros to at least `width` characters.
pub fn zero_padded(n: i32, width: usize) -> (text: String)
    ensures
        text@ == zero_padded_digits(n as int, width as int),
{
    let negative = n < 0;
    let magnitude: u64 = if negative {
        (-(n as i64)) as u64
    } else {
        n as u64
    };
    let digits = decimal(magnitude);
    let length: usize = digits.as_str().unicode_len();
    let mut text = String::new();
    proof {
        reveal_strlit("-");
        reveal_strlit("0");
    }
    let room: usize = if negative {
        text.append("-");
        if width > 0 {
            width - 1
        } else {
            0
        }
    } else {
        width
    };
    let ghost sign = text@;
    let mut filled: usize = 0;
    while filled < room && length < room - filled
        invariant
            filled <= room,
            length < room ==> filled + length <= room,
            length >= room ==> filled == 0,
            "0"@ == seq!['0'],
            text@ == sign + Seq::new(filled as nat, |i: int| '0'),
        decreases room - filled,
    {
        text.append("0");
        filled = filled + 1;
        assert(text@ =~= sign + Seq::new(filled as nat, |i: int| '0'));
    }
    text.append(digits.as_str());
    assert(text@ =~= sign + padded(digits@, room as int));
    assert(text@ =~= zero_padded_digits(n as int, width as int));
    text
}

/// The characters of a text.
pub fn characters(text: &str) -> (chars: Vec<char>)
    ensures
        chars@ == text@,
{
    let mut chars: Vec<char> = Vec::new();
    for c in it: text.chars()
        invariant
            chars@ == it.seq().take(it.index() as int),
            it.seq() == text@,
    {
        chars.push(c);
    }
    assert(chars@ =~= text@);
    chars
}

/// Whether two texts are the same.
pub fn same_text(left: &str, right: &str) -> (same: bool)
    ensures
        same == (left@ == right@),
{
    let a = characters(left);
    let b = characters(right);
    if a.len() != b.len() {
        return false;
    }
    let mut i: usize = 0;
    while i < a.len()
        invariant
            i <= a@.len(),
            a@.len() == b@.len(),
            forall|j: int| 0 <= j < i ==> a@[j] == b@[j],
            a@ == left@,
            b@ == right@,
        decreases a@.len() - i,
    {
        if a[i] != b[i] {
            return false;
        }
        i = i + 1;
    }
    assert(left@ =~= right@);
    true
}

/// Whether a piece between two slashes of a path names something: it is neither
/// empty nor a single dot.
pub open spec fn is_name(piece: Seq<char>) -> bool {
    piece.len() > 0 && piece != seq!['.']
}

/// The last piece that names something.
pub open spec fn last_name(path_pieces: Seq<Seq<char>>) -> Option<Seq<char>>
    decreases path_pieces.len(),
{
    if path_pieces.len() == 0 {
        None
    } else if is_name(path_pieces.last()) {
        Some(path_pieces.last())
    } else {
        last_name(path_pieces.drop_last())
    }
}

/// The final component of a Unix path: its last name, unless that is the parent
/// directory `..`.
pub open spec fn final_component(path: Seq<char>) -> Option<Seq<char>> {
    match last_name(split::pieces(path, '/')) {
        Some(name) => if name == seq!['.', '.'] {
            None
        } else {
            Some(name)
        },
        None => None,
    }
}

fn names_something(piece: &Vec<char>) -> (named: bool)
    ensures
        named == is_name(piece@),
{
    if piece.len() == 0 {
        return false;
    }
    if piece.len() == 1 && piece[0] == '.' {
        assert(piece@ =~= seq!['.']);
        return false;
    }
    assert(piece@.len() == 1 ==> piece@[0] != '.');
    assert(piece@ == seq!['.'] ==> piece@.len() == 1 && piece@[0] == '.');
    true
}

/// The final component of a Unix path.
pub fn file_name(path: &str) -> (name: Option<Vec<char>>)
    ensures
        match name {
            Some(chars) => final_component(path@) == Some(chars@),
            None => final_component(path@) is None,
        },
{
    let chars = characters(path);
    let mut last: Option<Vec<char>> = None;
    let mut open: Vec<char> = Vec::new();
    let mut i: usize = 0;
    assert(split::pieces(chars@.take(0), '/') =~= seq![Seq::<char>::empty()]);
    assert(seq![Seq::<char>::empty()].drop_last() =~= Seq::empty());
    while i < chars.len()
        invariant
            i <= chars@.len(),
            open@ == split::pieces(chars@.take(i as int), '/').last(),
            split::pieces(chars@.take(i as int), '/').len() >= 1,
            match last {
                Some(name) => last_name(split::pieces(chars@.take(i as int), '/').drop_last()) == Some(
                    name@,
                ),
                None => last_name(split::pieces(chars@.take(i as int), '/').drop_last()) is None,
            },
        decreases chars@.len() - i,
    {
        let c = chars[i];
        let ghost before = split::pieces(chars@.take(i as int), '/');
        let ghost after = split::pieces(chars@.take(i + 1), '/');
        proof {
            assert(chars@.take(i + 1).drop_last() =~= chars@.take(i as int));
            assert(chars@.take(i + 1).last() == c);
        }
        if c == '/' {
            assert(after.drop_last() =~= before);
            if names_something(&open) {
                last = Some(open);
            }
            open = Vec::new();
        } else {
            open.push(c);
            assert(after.drop_last() =~= before.drop_last());
        }
        i = i + 1;
    }
    assert(chars@.take(i as int) =~= path@);
    if names_something(&open) {
        last = Some(open);
    }
    match last {
        Some(name) => {
            if name.len() == 2 && name[0] == '.' && name[1] == '.' {
                assert(name@ =~= seq!['.', '.']);
                None
            } else {
                assert(name@ == seq!['.', '.'] ==> name@.len() == 2 && name@[0] == '.' && name@[1]
                    == '.');
                Some(name)
            }
        },
        None => None,
    }
}

/// Whether characters, in lower case, spell `word`.
pub fn spells_ignoring_case(chars: &Vec<char>, word: &str) -> (same: bool)
    ensures
        same == (lower(chars@) == word@),
{
    let letters = characters(word);
    if chars.len() != letters.len() {
        assert(lower(chars@).len() != word@.len());
        return false;
    }
    let mut i: usize = 0;
    while i < chars.len()
        invariant
            i <= chars@.len(),
            chars@.len() == letters@.len(),
            letters@ == word@,
            forall|j: int| 0 <= j < i ==> lower_char(#[trigger] chars@[j]) == letters@[j],
        decreases chars@.len() - i,
    {
        if lowered_char(chars[i]) != letters[i] {
            assert(lower(chars@)[i as int] != word@[i as int]);
            return false;
        }
        i = i + 1;
    }
    assert(lower(chars@) =~= word@);
    true
}

fn lowered_char(c: char) -> (lowered: char)
    ensures
        lowered == lower_char(c),
{
    if 'A' <= c && c <= 'Z' {
        (c as u8 + 32) as char
    } else {
        c
    }
}

/// Whether a text begins with `prefix`.
pub fn begins_with(text: &str, prefix: &str) -> (begins: bool)
    ensures
        begins == prefix@.is_prefix_of(text@),
{
    let chars = characters(text);
    let start = characters(prefix);
    if chars.len() < start.len() {
        return false;
    }
    let mut i: usize = 0;
    while i < start.len()
        invariant
            i <= start@.len() <= chars@.len(),
            chars@ == text@,
            start@ == prefix@,
            forall|j: int| 0 <= j < i ==> start@[j] == chars@[j],
        decreases start@.len() - i,
    {
        if chars[i] != start[i] {
            assert(text@.subrange(0, prefix@.len() as int)[i as int] != prefix@[i as int]);
            return false;
        }
        i = i + 1;
    }
    assert(prefix@ =~= text@.subrange(0, prefix@.len() as int));
    true
}

} // verus!
