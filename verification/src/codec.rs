//! The coordinate codec: the bidirectional mapping between zero-based
//! `(row, column)` board indices and the two-character algebraic form, a
//! file letter 'a'–'h' followed by the row written in decimal. The rows
//! keep their zero-based numbering in the text form.

use vstd::prelude::*;

use vstd::string::StrSliceExecFns;
use vstd::string::StringExecFns;

verus! {

/// A failure to parse a square's text: the rank did not read as a number,
/// or the file was not a letter 'a'–'h'. An unreadable rank takes
/// precedence, so callers can give a precise diagnostic.
#[derive(Copy, Clone, PartialEq, Eq, Structural, Debug)]
pub enum ParseError {
    InvalidRank,
    InvalidFile,
}

/// The file letter of column `c`: 'a' for 0 through 'h' for 7.
pub open spec fn file_char(c: int) -> char {
    if c == 0 {
        'a'
    } else if c == 1 {
        'b'
    } else if c == 2 {
        'c'
    } else if c == 3 {
        'd'
    } else if c == 4 {
        'e'
    } else if c == 5 {
        'f'
    } else if c == 6 {
        'g'
    } else {
        'h'
    }
}

/// The rank digit of row `r`: '0' for 0 through '7' for 7.
pub open spec fn rank_char(r: int) -> char {
    if r == 0 {
        '0'
    } else if r == 1 {
        '1'
    } else if r == 2 {
        '2'
    } else if r == 3 {
        '3'
    } else if r == 4 {
        '4'
    } else if r == 5 {
        '5'
    } else if r == 6 {
        '6'
    } else {
        '7'
    }
}

/// The two-character algebraic form of `(r, c)`.
pub open spec fn square_chars(r: int, c: int) -> Seq<char> {
    seq![file_char(c), rank_char(r)]
}

/// Whether `ch` is a file letter 'a'–'h'.
pub open spec fn is_file_char(ch: char) -> bool {
    ||| ch == 'a'
    ||| ch == 'b'
    ||| ch == 'c'
    ||| ch == 'd'
    ||| ch == 'e'
    ||| ch == 'f'
    ||| ch == 'g'
    ||| ch == 'h'
}

/// The column a file letter denotes.
pub open spec fn file_index(ch: char) -> int {
    if ch == 'a' {
        0
    } else if ch == 'b' {
        1
    } else if ch == 'c' {
        2
    } else if ch == 'd' {
        3
    } else if ch == 'e' {
        4
    } else if ch == 'f' {
        5
    } else if ch == 'g' {
        6
    } else {
        7
    }
}

/// Whether `ch` is a decimal digit.
pub open spec fn is_digit(ch: char) -> bool {
    ||| ch == '0'
    ||| ch == '1'
    ||| ch == '2'
    ||| ch == '3'
    ||| ch == '4'
    ||| ch == '5'
    ||| ch == '6'
    ||| ch == '7'
    ||| ch == '8'
    ||| ch == '9'
}

/// The numeric value of a decimal digit.
pub open spec fn digit_val(ch: char) -> int {
    if ch == '0' {
        0
    } else if ch == '1' {
        1
    } else if ch == '2' {
        2
    } else if ch == '3' {
        3
    } else if ch == '4' {
        4
    } else if ch == '5' {
        5
    } else if ch == '6' {
        6
    } else if ch == '7' {
        7
    } else if ch == '8' {
        8
    } else {
        9
    }
}

/// Whether every character of `s` is a decimal digit.
pub open spec fn all_digits(s: Seq<char>) -> bool {
    forall|i: int| 0 <= i < s.len() ==> is_digit(#[trigger] s[i])
}

/// The number a digit string denotes, most significant digit first.
pub open spec fn digits_val(s: Seq<char>) -> int
    decreases s.len(),
{
    if s.len() == 0 {
        0
    } else {
        digits_val(s.drop_last()) * 10 + digit_val(s.last())
    }
}

/// A digit string denotes a non-negative number.
proof fn lemma_digits_val_nonneg(s: Seq<char>)
    requires
        all_digits(s),
    ensures
        digits_val(s) >= 0,
    decreases s.len(),
{
    if s.len() > 0 {
        assert(all_digits(s.drop_last()));
        lemma_digits_val_nonneg(s.drop_last());
    }
}

/// Dropping trailing digits never increases the number a digit string
/// denotes.
proof fn lemma_digits_val_prefix(s: Seq<char>, i: int)
    requires
        all_digits(s),
        0 <= i <= s.len(),
    ensures
        digits_val(s) >= digits_val(s.subrange(0, i)),
    decreases s.len() - i,
{
    if i == s.len() {
        assert(s.subrange(0, i) =~= s);
    } else {
        lemma_digits_val_prefix(s, i + 1);
        assert(s.subrange(0, i + 1).drop_last() =~= s.subrange(0, i));
        assert(all_digits(s.subrange(0, i)));
        lemma_digits_val_nonneg(s.subrange(0, i));
        assert(digits_val(s.subrange(0, i + 1)) == digits_val(s.subrange(0, i)) * 10 + digit_val(
            s[i],
        ));
    }
}

/// What parsing a square's text yields. The characters after the first
/// must all be digits denoting a number the machine can hold — else the
/// rank is invalid, which takes precedence — and the first character must
/// be a file letter, else the file is invalid. The parsed rank is not
/// bounds-checked here: callers must check it before indexing the board.
pub open spec fn parse_result(s: Seq<char>) -> Result<(usize, usize), ParseError> {
    if s.len() < 2 || !all_digits(s.skip(1)) || digits_val(s.skip(1)) > usize::MAX as int {
        Err(ParseError::InvalidRank)
    } else if !is_file_char(s[0]) {
        Err(ParseError::InvalidFile)
    } else {
        Ok((digits_val(s.skip(1)) as usize, file_index(s[0]) as usize))
    }
}

/// The two-character algebraic form of `(row, col)`: the file letter of
/// the column followed by the row digit. Both coordinates must be on the
/// board.
pub fn coords_to_string(row: usize, col: usize) -> (s: String)
    requires
        row < 8,
        col < 8,
    ensures
        s@ == square_chars(row as int, col as int),
{
    let file: &str = match col {
        0 => "a",
        1 => "b",
        2 => "c",
        3 => "d",
        4 => "e",
        5 => "f",
        6 => "g",
        _ => "h",
    };
    let rank: &str = match row {
        0 => "0",
        1 => "1",
        2 => "2",
        3 => "3",
        4 => "4",
        5 => "5",
        6 => "6",
        _ => "7",
    };
    proof {
        reveal_strlit("a");
        reveal_strlit("b");
        reveal_strlit("c");
        reveal_strlit("d");
        reveal_strlit("e");
        reveal_strlit("f");
        reveal_strlit("g");
        reveal_strlit("h");
        reveal_strlit("0");
        reveal_strlit("1");
        reveal_strlit("2");
        reveal_strlit("3");
        reveal_strlit("4");
        reveal_strlit("5");
        reveal_strlit("6");
        reveal_strlit("7");
    }
    let s = String::from_str(file).concat(rank);
    proof {
        assert(s@ =~= square_chars(row as int, col as int));
    }
    s
}

/// Parses a square's two-character algebraic form back to `(row, col)`:
/// the first character is the file, the rest is the rank in decimal. The
/// rank is not bounds-checked: callers must check it before indexing.
pub fn string_to_coords(square: &str) -> (r: Result<(usize, usize), ParseError>)
    ensures
        r == parse_result(square@),
{
    let n = square.unicode_len();
    if n < 2 {
        return Err(ParseError::InvalidRank);
    }
    let mut val: usize = 0;
    let mut i: usize = 1;
    while i < n
        invariant
            1 <= i <= n,
            2 <= n == square@.len(),
            all_digits(square@.subrange(1, i as int)),
            val == digits_val(square@.subrange(1, i as int)),
        decreases n - i,
    {
        let ch = square.get_char(i);
        let d: usize = match ch {
            '0' => 0,
            '1' => 1,
            '2' => 2,
            '3' => 3,
            '4' => 4,
            '5' => 5,
            '6' => 6,
            '7' => 7,
            '8' => 8,
            '9' => 9,
            _ => {
                proof {
                    assert(square@.skip(1)[i - 1] == square@[i as int]);
                    assert(!all_digits(square@.skip(1)));
                }
                return Err(ParseError::InvalidRank);
            },
        };
        proof {
            assert(square@.subrange(1, i + 1).drop_last() =~= square@.subrange(1, i as int));
            assert(square@.subrange(1, i + 1).last() == square@[i as int]);
        }
        if val > (usize::MAX - d) / 10 {
            proof {
                assert(val * 10 + d > usize::MAX);
                if all_digits(square@.skip(1)) {
                    assert(square@.skip(1).subrange(0, i as int) =~= square@.subrange(1, i + 1));
                    lemma_digits_val_prefix(square@.skip(1), i as int);
                    assert(digits_val(square@.skip(1)) > usize::MAX as int);
                }
            }
            return Err(ParseError::InvalidRank);
        }
        val = val * 10 + d;
        i += 1;
    }
    proof {
        assert(square@.subrange(1, n as int) =~= square@.skip(1));
    }
    let fc = square.get_char(0);
    let col: usize = match fc {
        'a' => 0,
        'b' => 1,
        'c' => 2,
        'd' => 3,
        'e' => 4,
        'f' => 5,
        'g' => 6,
        'h' => 7,
        _ => {
            return Err(ParseError::InvalidFile);
        },
    };
    Ok((val, col))
}

/// The codec round-trips: parsing the text of any on-board square gives
/// back exactly its coordinates.
pub proof fn lemma_codec_round_trip(r: int, c: int)
    requires
        0 <= r < 8,
        0 <= c < 8,
    ensures
        parse_result(square_chars(r, c)) == Ok::<(usize, usize), ParseError>(
            ((r as usize), (c as usize)),
        ),
{
    let s = square_chars(r, c);
    let t: Seq<char> = seq![rank_char(r)];
    assert(s.skip(1) =~= t);
    assert(t.drop_last() =~= Seq::<char>::empty());
    assert(digits_val(Seq::<char>::empty()) == 0);
    assert(t.last() == rank_char(r));
    assert(digits_val(t) == digit_val(rank_char(r)));
    assert(digits_val(s.skip(1)) == digit_val(rank_char(r)));
}

} // verus!
