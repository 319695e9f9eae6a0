//! Texts that the Luau parser can take.
//!
//! The parser goes on past a character that its lexer does not know, except in
//! a few places where it looks at what comes next without asking whether it
//! could be read. Those are all in types: after a `.`, a `[`, a `:`, a `...` or
//! an `@` it looks for the next part, and after a whole type it looks for a
//! `|` or a `&`. A type may end in a name, a string, a `}`, a `)`, a `>` or a
//! `?`. Two more constructs look further back: a field `["key"]:` whose type
//! cannot be read, and a `typeof(…)`, which may hold any expression. So a
//! character that the lexer does not know is no trouble unless it follows on one
//! of these.

use vstd::prelude::*;
use vstd::string::*;

use crate::pieces::first_char;
use crate::text::{self, length, slice};

verus! {

pub open spec fn digit(b: u8) -> bool {
    48 <= b <= 57
}

/// A letter, a digit or an underscore.
pub open spec fn name_byte(b: u8) -> bool {
    digit(b) || 65 <= b <= 90 || 97 <= b <= 122 || b == 95
}

pub fn is_digit(b: u8) -> (r: bool)
    ensures
        r == digit(b),
{
    48 <= b && b <= 57
}

pub fn is_name_byte(b: u8) -> (r: bool)
    ensures
        r == name_byte(b),
{
    is_digit(b) || 65 <= b && b <= 90 || 97 <= b && b <= 122 || b == 95
}

/// A hexadecimal digit or an underscore.
pub open spec fn hex_byte(b: u8) -> bool {
    digit(b) || 65 <= b <= 70 || 97 <= b <= 102 || b == 95
}

/// A space, a tab or the end of a line.
pub open spec fn blank_byte(b: u8) -> bool {
    b == 32 || b == 9 || b == 13 || b == 10
}

/// An operator or a bracket that is a token of its own, or part of one.
pub open spec fn symbol_byte(b: u8) -> bool {
    ||| b == 35 || b == 37 || b == 38
    ||| 40 <= b <= 47
    ||| 58 <= b <= 64
    ||| 91 <= b <= 94 && b != 92
    ||| b == 123 || b == 124 || b == 125
}

fn is_symbol_byte(b: u8) -> (r: bool)
    ensures
        r == symbol_byte(b),
{
    b == 35 || b == 37 || b == 38 || 40 <= b && b <= 47 || 58 <= b && b <= 64 || 91 <= b && b <= 94
        && b != 92 || b == 123 || b == 124 || b == 125
}

/// Whether a character begins at an offset that is in no token of Luau outside
/// strings and comments.
pub open spec fn foreign(b: Seq<u8>, i: int) -> bool {
    &&& !name_byte(b[i]) && !blank_byte(b[i]) && !symbol_byte(b[i])
    &&& b[i] != 34 && b[i] != 39 && b[i] != 96
    &&& !(0x80 <= b[i] <= 0xbf)
    &&& !(b[i] == 126 && i + 1 < b.len() && b[i + 1] == 61)
}

pub fn is_foreign(b: &[u8], i: usize) -> (r: bool)
    requires
        i < b@.len(),
    ensures
        r == foreign(b@, i as int),
{
    let c: u8 = b[i];
    !is_name_byte(c) && !(c == 32 || c == 9 || c == 13 || c == 10) && !is_symbol_byte(c) && c != 34
        && c != 39 && c != 96 && !(0x80 <= c && c <= 0xbf) && !(c == 126 && i < b.len() - 1 && b[i
        + 1] == 61)
}

/// The first such character from an offset on.
pub open spec fn foreign_from(b: Seq<u8>, i: int) -> Option<int>
    decreases b.len() - i,
{
    if i < 0 || i >= b.len() {
        None
    } else if foreign(b, i) {
        Some(i)
    } else {
        foreign_from(b, i + 1)
    }
}

fn find_foreign(b: &[u8], from: usize) -> (r: Option<usize>)
    requires
        from <= b@.len(),
    ensures
        match (r, foreign_from(b@, from as int)) {
            (Some(a), Some(at)) => a == at && a < b@.len() && foreign(b@, at),
            (None, None) => true,
            _ => false,
        },
{
    let mut i: usize = from;
    while i < b.len()
        invariant
            from <= i <= b@.len(),
            foreign_from(b@, from as int) == foreign_from(b@, i as int),
        decreases b@.len() - i,
    {
        if is_foreign(b, i) {
            return Some(i);
        }
        i = i + 1;
    }
    None
}

/// What a run of bytes is made of.
#[derive(Debug, Clone, Copy, PartialEq, Eq, Structural)]
pub enum Run {
    Name,
    /// Decimal digits and underscores.
    Digits,
    Hex,
    Binary,
    /// The `=` between long brackets.
    Equals,
    /// Everything up to the end of the line.
    Line,
}

pub open spec fn in_run(run: Run, b: u8) -> bool {
    match run {
        Run::Name => name_byte(b),
        Run::Digits => digit(b) || b == 95,
        Run::Hex => hex_byte(b),
        Run::Binary => b == 48 || b == 49 || b == 95,
        Run::Equals => b == 61,
        Run::Line => b != 10,
    }
}

/// Where a run ends that begins at an offset.
pub open spec fn run_end(run: Run, b: Seq<u8>, i: int) -> int
    decreases b.len() - i,
{
    if 0 <= i < b.len() && in_run(run, b[i]) {
        run_end(run, b, i + 1)
    } else {
        i
    }
}

fn end_of_run(run: Run, b: &[u8], from: usize) -> (r: usize)
    requires
        from <= b@.len(),
    ensures
        r == run_end(run, b@, from as int),
        from <= r <= b@.len(),
{
    let mut i: usize = from;
    while i < b.len()
        invariant
            from <= i <= b@.len(),
            run_end(run, b@, from as int) == run_end(run, b@, i as int),
        decreases b@.len() - i,
    {
        let c: u8 = b[i];
        let within = match run {
            Run::Name => is_name_byte(c),
            Run::Digits => is_digit(c) || c == 95,
            Run::Hex => is_digit(c) || 65 <= c && c <= 70 || 97 <= c && c <= 102 || c == 95,
            Run::Binary => c == 48 || c == 49 || c == 95,
            Run::Equals => c == 61,
            Run::Line => c != 10,
        };
        if !within {
            return i;
        }
        i = i + 1;
    }
    i
}

/// Whether a byte stands at an offset.
pub open spec fn byte_at(b: Seq<u8>, i: int, c: u8) -> bool {
    0 <= i < b.len() && b[i] == c
}

pub fn is_byte_at(b: &[u8], i: usize, c: u8) -> (r: bool)
    ensures
        r == byte_at(b@, i as int, c),
{
    i < b.len() && b[i] == c
}

/// Where a number ends that begins at an offset, if it is a number.
pub open spec fn number_end(b: Seq<u8>, i: int) -> Option<int> {
    if byte_at(b, i, 48) && (byte_at(b, i + 1, 120) || byte_at(b, i + 1, 88)) {
        let end = run_end(Run::Hex, b, i + 2);
        if end > i + 2 {
            Some(end)
        } else {
            None
        }
    } else if byte_at(b, i, 48) && (byte_at(b, i + 1, 98) || byte_at(b, i + 1, 66)) {
        let end = run_end(Run::Binary, b, i + 2);
        if end > i + 2 {
            Some(end)
        } else {
            None
        }
    } else {
        let whole = run_end(Run::Digits, b, if byte_at(b, i, 46) {
            i + 1
        } else {
            i
        });
        let end = if !byte_at(b, i, 46) && byte_at(b, whole, 46) {
            run_end(Run::Digits, b, whole + 1)
        } else {
            whole
        };
        if byte_at(b, end, 46) {
            None
        } else if byte_at(b, end, 101) || byte_at(b, end, 69) {
            let power = if byte_at(b, end + 1, 43) || byte_at(b, end + 1, 45) {
                end + 2
            } else {
                end + 1
            };
            if 0 <= power < b.len() && digit(b[power]) {
                Some(run_end(Run::Digits, b, power))
            } else {
                None
            }
        } else {
            Some(end)
        }
    }
}

fn end_of_number(b: &[u8], i: usize) -> (r: Option<usize>)
    requires
        i < b@.len(),
        digit(b@[i as int]) || b@[i as int] == 46,
    ensures
        match (r, number_end(b@, i as int)) {
            (Some(a), Some(end)) => a == end && i < a <= b@.len(),
            (None, None) => true,
            _ => false,
        },
{
    let n: usize = b.len();
    if i < n - 1 && b[i] == 48 && (b[i + 1] == 120 || b[i + 1] == 88) {
        let end: usize = end_of_run(Run::Hex, b, i + 2);
        return if end > i + 2 {
            Some(end)
        } else {
            None
        };
    }
    if i < n - 1 && b[i] == 48 && (b[i + 1] == 98 || b[i + 1] == 66) {
        let end: usize = end_of_run(Run::Binary, b, i + 2);
        return if end > i + 2 {
            Some(end)
        } else {
            None
        };
    }
    assert(b@[i as int] != 46 ==> run_end(Run::Digits, b@, i as int) == run_end(
        Run::Digits,
        b@,
        i + 1,
    ));
    let whole: usize = end_of_run(Run::Digits, b, i + 1);
    let end: usize = if b[i] != 46 && is_byte_at(b, whole, 46) {
        end_of_run(Run::Digits, b, whole + 1)
    } else {
        whole
    };
    if is_byte_at(b, end, 46) {
        return None;
    }
    if is_byte_at(b, end, 101) || is_byte_at(b, end, 69) {
        let power: usize = if is_byte_at(b, end + 1, 43) || is_byte_at(b, end + 1, 45) {
            end + 2
        } else {
            end + 1
        };
        return if power < n && is_digit(b[power]) {
            Some(end_of_run(Run::Digits, b, power))
        } else {
            None
        };
    }
    Some(end)
}

/// Where a string in quotes ends, from an offset inside it on. It ends with its
/// line, unless a backslash stands before the end of the line.
pub open spec fn quoted_end(b: Seq<u8>, i: int, quote: u8) -> Option<int>
    decreases b.len() - i + 2,
{
    if i < 0 || i >= b.len() {
        None
    } else if b[i] == quote {
        Some(i + 1)
    } else if b[i] == 92 {
        if byte_at(b, i + 1, 13) && byte_at(b, i + 2, 10) {
            quoted_end(b, i + 3, quote)
        } else {
            quoted_end(b, i + 2, quote)
        }
    } else if b[i] == 10 || b[i] == 13 {
        None
    } else {
        quoted_end(b, i + 1, quote)
    }
}

fn end_of_quoted(b: &[u8], from: usize, quote: u8) -> (r: Option<usize>)
    requires
        from <= b@.len(),
    ensures
        match (r, quoted_end(b@, from as int, quote)) {
            (Some(a), Some(end)) => a == end && from < a <= b@.len(),
            (None, None) => true,
            _ => false,
        },
{
    let n: usize = b.len();
    let mut i: usize = from;
    while i < n
        invariant
            n == b@.len(),
            from <= i,
            quoted_end(b@, from as int, quote) == quoted_end(b@, i as int, quote),
        decreases n - i,
    {
        let c: u8 = b[i];
        if c == quote {
            return Some(i + 1);
        }
        if c == 92 {
            if n - i <= 2 {
                assert(quoted_end(b@, i + 2, quote) is None);
                return None;
            }
            if b[i + 1] == 13 && b[i + 2] == 10 {
                if n - i == 3 {
                    assert(quoted_end(b@, i + 3, quote) is None);
                    return None;
                }
                i = i + 3;
            } else {
                i = i + 2;
            }
        } else if c == 10 || c == 13 {
            return None;
        } else {
            i = i + 1;
        }
    }
    None
}

/// Where a stretch of an interpolated string ends, and whether with the `{` of
/// an expression.
pub open spec fn stretch_end(b: Seq<u8>, i: int) -> Option<(int, bool)>
    decreases b.len() - i + 2,
{
    if i < 0 || i >= b.len() {
        None
    } else if b[i] == 96 {
        Some((i + 1, false))
    } else if b[i] == 123 {
        Some((i + 1, true))
    } else if b[i] == 10 || b[i] == 13 {
        None
    } else if b[i] == 92 {
        if byte_at(b, i + 1, 122) || byte_at(b, i + 1, 13) {
            None
        } else if byte_at(b, i + 1, 117) && byte_at(b, i + 2, 123) {
            let end = run_end(Run::Hex, b, i + 3);
            if i + 3 < end && byte_at(b, end, 125) {
                stretch_end(b, end + 1)
            } else {
                None
            }
        } else {
            stretch_end(b, i + 2)
        }
    } else {
        stretch_end(b, i + 1)
    }
}

fn end_of_stretch(b: &[u8], from: usize) -> (r: Option<(usize, bool)>)
    requires
        from <= b@.len(),
    ensures
        match (r, stretch_end(b@, from as int)) {
            (Some(a), Some(end)) => a.0 == end.0 && a.1 == end.1 && from < a.0 <= b@.len(),
            (None, None) => true,
            _ => false,
        },
{
    let n: usize = b.len();
    let mut i: usize = from;
    while i < n
        invariant
            n == b@.len(),
            from <= i,
            stretch_end(b@, from as int) == stretch_end(b@, i as int),
        decreases n - i,
    {
        let c: u8 = b[i];
        if c == 96 {
            return Some((i + 1, false));
        }
        if c == 123 {
            return Some((i + 1, true));
        }
        if c == 10 || c == 13 {
            return None;
        }
        if c == 92 {
            if n - i <= 2 {
                assert(stretch_end(b@, i + 2) is None);
                return None;
            }
            if b[i + 1] == 122 || b[i + 1] == 13 {
                return None;
            }
            if b[i + 1] == 117 && b[i + 2] == 123 {
                let end: usize = end_of_run(Run::Hex, b, i + 3);
                if !(i + 3 < end && is_byte_at(b, end, 125)) {
                    return None;
                }
                i = end + 1;
            } else {
                i = i + 2;
            }
        } else {
            i = i + 1;
        }
    }
    None
}

/// How many `=` a long bracket has that opens at an offset, if one does.
pub open spec fn long_level(b: Seq<u8>, i: int) -> Option<int> {
    let end = run_end(Run::Equals, b, i + 1);
    if byte_at(b, i, 91) && byte_at(b, end, 91) {
        Some(end - (i + 1))
    } else {
        None
    }
}

fn level_at(b: &[u8], i: usize) -> (r: Option<usize>)
    ensures
        match (r, long_level(b@, i as int)) {
            (Some(a), Some(level)) => a == level && i + 2 + a <= b@.len(),
            (None, None) => true,
            _ => false,
        },
{
    let n: usize = b.len();
    if !(i < n && b[i] == 91) {
        return None;
    }
    let end: usize = end_of_run(Run::Equals, b, i + 1);
    if is_byte_at(b, end, 91) {
        Some(end - (i + 1))
    } else {
        None
    }
}

/// Whether a long bracket closes at an offset.
pub open spec fn closes(b: Seq<u8>, i: int, level: int) -> bool {
    &&& byte_at(b, i, 93)
    &&& byte_at(b, i + 1 + level, 93)
    &&& forall|k: int| #![trigger b[k]] i < k <= i + level ==> b[k] == 61
}

/// Where what a long bracket opened ends, from an offset inside it on.
pub open spec fn long_end(b: Seq<u8>, i: int, level: int) -> Option<int>
    decreases b.len() - i,
{
    if i < 0 || i >= b.len() {
        None
    } else if closes(b, i, level) {
        Some(i + level + 2)
    } else {
        long_end(b, i + 1, level)
    }
}

fn is_closing(b: &[u8], i: usize, level: usize) -> (r: bool)
    requires
        i < b@.len(),
        level <= b@.len(),
    ensures
        r == closes(b@, i as int, level as int),
{
    let n: usize = b.len();
    if b[i] != 93 || n - i < 2 || level > n - i - 2 || b[i + 1 + level] != 93 {
        return false;
    }
    let mut k: usize = i + 1;
    while k <= i + level
        invariant
            n == b@.len(),
            i < k <= i + level + 1,
            i + 1 + level < n,
            forall|j: int| #![trigger b@[j]] i < j < k ==> b@[j] == 61,
        decreases i + level + 1 - k,
    {
        if b[k] != 61 {
            return false;
        }
        k = k + 1;
    }
    true
}

fn end_of_long(b: &[u8], from: usize, level: usize) -> (r: Option<usize>)
    requires
        from <= b@.len(),
        level <= b@.len(),
    ensures
        match (r, long_end(b@, from as int, level as int)) {
            (Some(a), Some(end)) => a == end && from < a <= b@.len(),
            (None, None) => true,
            _ => false,
        },
{
    let mut i: usize = from;
    while i < b.len()
        invariant
            from <= i <= b@.len(),
            level <= b@.len(),
            long_end(b@, from as int, level as int) == long_end(b@, i as int, level as int),
        decreases b@.len() - i,
    {
        if is_closing(b, i, level) {
            return Some(i + level + 2);
        }
        i = i + 1;
    }
    None
}

/// What stands on top of the open braces once a token has been read.
#[derive(Debug, Clone, Copy, PartialEq, Eq, Structural)]
pub enum Braces {
    Same,
    /// One more is open; `true`, if it belongs to an interpolated string.
    Open(bool),
    Close,
}

/// What stands at an offset of a text outside strings and comments.
#[derive(Debug, Clone, Copy, PartialEq, Eq, Structural)]
pub enum Piece {
    /// A token, or a blank, up to an offset. A token is remembered by a byte
    /// that stands for it.
    Upto { end: usize, last: u8, typed: bool, braces: Braces },
    /// A character that is in no token.
    Foreign,
    /// A string, a comment or a number that is not closed, or not well formed.
    Lost,
    /// A comment that runs up to the end of the text.
    Tail,
}

/// The byte that stands for a name.
pub const NAME: u8 = 97;

/// The byte that stands for a string.
pub const STRING: u8 = 34;

/// A token up to an offset.
pub open spec fn token(end: int, last: u8, typed: bool) -> Piece {
    Piece::Upto { end: end as usize, last, typed, braces: Braces::Same }
}

/// What an expression's `{` or its closing quote makes of an interpolated
/// string that goes on at an offset.
pub open spec fn interpolated(b: Seq<u8>, i: int, typed: bool, resumed: bool) -> Piece {
    match stretch_end(b, i) {
        Some((end, true)) => Piece::Upto {
            end: end as usize,
            last: 123,
            typed,
            braces: if resumed {
                Braces::Same
            } else {
                Braces::Open(true)
            },
        },
        Some((end, false)) => Piece::Upto {
            end: end as usize,
            last: 96,
            typed,
            braces: if resumed {
                Braces::Close
            } else {
                Braces::Same
            },
        },
        None => Piece::Lost,
    }
}

/// The comment that begins at an offset.
pub open spec fn comment(b: Seq<u8>, i: int, last: u8, typed: bool) -> Piece {
    match long_level(b, i + 2) {
        Some(level) => match long_end(b, i + 4 + level, level) {
            Some(end) => token(end, last, typed),
            None => Piece::Lost,
        },
        None => {
            let end = run_end(Run::Line, b, i + 2);
            if end >= b.len() {
                Piece::Tail
            } else {
                token(end, last, typed)
            }
        },
    }
}

/// What stands at an offset, given the token before it, whether the text may be
/// in a type that looks further back, and whether the innermost open brace is
/// one of an interpolated string.
pub open spec fn piece(b: Seq<u8>, i: int, last: u8, typed: bool, inner: bool) -> Piece {
    let c = b[i];
    if blank_byte(c) || 0x80 <= c <= 0xbf {
        token(i + 1, last, typed)
    } else if digit(c) || c == 46 && i + 1 < b.len() && digit(b[i + 1]) {
        match number_end(b, i) {
            Some(end) => token(end, 48, typed),
            None => Piece::Lost,
        }
    } else if name_byte(c) {
        let end = run_end(Run::Name, b, i);
        token(end, NAME, typed || b.subrange(i, end) == text::bytes("typeof"@))
    } else if c == 34 || c == 39 {
        match quoted_end(b, i + 1, c) {
            Some(end) => token(end, STRING, typed),
            None => Piece::Lost,
        }
    } else if c == 96 {
        interpolated(b, i + 1, typed, false)
    } else if c == 123 {
        Piece::Upto { end: (i + 1) as usize, last: c, typed, braces: Braces::Open(false) }
    } else if c == 125 {
        if inner {
            interpolated(b, i + 1, typed, true)
        } else {
            Piece::Upto { end: (i + 1) as usize, last: c, typed, braces: Braces::Close }
        }
    } else if c == 45 && byte_at(b, i + 1, 45) {
        comment(b, i, last, typed)
    } else if c == 91 && long_level(b, i) is Some {
        match long_end(b, i + 2 + long_level(b, i)->0, long_level(b, i)->0) {
            Some(end) => token(end, STRING, typed),
            None => Piece::Lost,
        }
    } else if c == 46 && byte_at(b, i + 1, 46) {
        token(
            if byte_at(b, i + 2, 46) {
                i + 3
            } else {
                i + 2
            },
            c,
            typed,
        )
    } else if c == 58 {
        token(i + 1, c, typed || last == 93)
    } else if symbol_byte(c) {
        token(i + 1, c, typed)
    } else if c == 126 && byte_at(b, i + 1, 61) {
        token(i + 2, 61, typed)
    } else {
        Piece::Foreign
    }
}

fn upto(end: usize, last: u8, typed: bool) -> (r: Piece)
    ensures
        r == token(end as int, last, typed),
{
    Piece::Upto { end, last, typed, braces: Braces::Same }
}

/// Whether a piece ends past an offset, and within the text.
pub open spec fn advances(b: Seq<u8>, i: int, r: Piece) -> bool {
    r matches Piece::Upto { end, .. } ==> i < end <= b.len()
}

fn interpolated_at(b: &[u8], i: usize, typed: bool, resumed: bool) -> (r: Piece)
    requires
        i <= b@.len(),
    ensures
        r == interpolated(b@, i as int, typed, resumed),
        advances(b@, i as int, r),
{
    match end_of_stretch(b, i) {
        Some((end, true)) => Piece::Upto {
            end,
            last: 123,
            typed,
            braces: if resumed {
                Braces::Same
            } else {
                Braces::Open(true)
            },
        },
        Some((end, false)) => Piece::Upto {
            end,
            last: 96,
            typed,
            braces: if resumed {
                Braces::Close
            } else {
                Braces::Same
            },
        },
        None => Piece::Lost,
    }
}

fn comment_at(b: &[u8], i: usize, last: u8, typed: bool) -> (r: Piece)
    requires
        i + 2 <= b@.len(),
    ensures
        r == comment(b@, i as int, last, typed),
        advances(b@, i as int, r),
{
    let n: usize = b.len();
    match level_at(b, i + 2) {
        Some(level) => match end_of_long(b, i + 4 + level, level) {
            Some(end) => upto(end, last, typed),
            None => Piece::Lost,
        },
        None => {
            let end: usize = end_of_run(Run::Line, b, i + 2);
            if end >= n {
                Piece::Tail
            } else {
                upto(end, last, typed)
            }
        },
    }
}

/// Whether the name between two offsets is `typeof`.
fn is_typeof(b: &[u8], start: usize, end: usize) -> (r: bool)
    requires
        start <= end <= b@.len(),
    ensures
        r == (b@.subrange(start as int, end as int) == text::bytes("typeof"@)),
{
    proof {
        reveal_strlit("typeof");
        vstd::utf8::is_ascii_chars_encode_utf8("typeof"@);
    }
    let ghost name = b@.subrange(start as int, end as int);
    let ghost sought = text::bytes("typeof"@);
    if end - start != 6 {
        assert(name.len() != sought.len());
        return false;
    }
    let r = b[start] == 116 && b[start + 1] == 121 && b[start + 2] == 112 && b[start + 3] == 101
        && b[start + 4] == 111 && b[start + 5] == 102;
    proof {
        assert(forall|k: int| 0 <= k < 6 ==> name[k] == b@[start + k]);
        if r {
            assert(name =~= sought);
        } else {
            assert(name[0] != sought[0] || name[1] != sought[1] || name[2] != sought[2] || name[3]
                != sought[3] || name[4] != sought[4] || name[5] != sought[5]);
        }
    }
    r
}

#[verifier::rlimit(40)]
fn piece_at(b: &[u8], i: usize, last: u8, typed: bool, inner: bool) -> (r: Piece)
    requires
        i < b@.len(),
    ensures
        r == piece(b@, i as int, last, typed, inner),
        advances(b@, i as int, r),
        r is Foreign ==> foreign(b@, i as int),
{
    let n: usize = b.len();
    let c: u8 = b[i];
    if c == 32 || c == 9 || c == 13 || c == 10 || 0x80 <= c && c <= 0xbf {
        upto(i + 1, last, typed)
    } else if is_digit(c) || c == 46 && i < n - 1 && is_digit(b[i + 1]) {
        match end_of_number(b, i) {
            Some(end) => upto(end, 48, typed),
            None => Piece::Lost,
        }
    } else if is_name_byte(c) {
        let end: usize = end_of_run(Run::Name, b, i);
        assert(run_end(Run::Name, b@, i as int) == run_end(Run::Name, b@, i + 1));
        proof {
            lemma_run_end(Run::Name, b@, i + 1);
        }
        let types = typed || is_typeof(b, i, end);
        upto(end, NAME, types)
    } else if c == 34 || c == 39 {
        match end_of_quoted(b, i + 1, c) {
            Some(end) => upto(end, STRING, typed),
            None => Piece::Lost,
        }
    } else if c == 96 {
        interpolated_at(b, i + 1, typed, false)
    } else if c == 123 {
        Piece::Upto { end: i + 1, last: c, typed, braces: Braces::Open(false) }
    } else if c == 125 {
        if inner {
            interpolated_at(b, i + 1, typed, true)
        } else {
            Piece::Upto { end: i + 1, last: c, typed, braces: Braces::Close }
        }
    } else if c == 45 && is_byte_at(b, i + 1, 45) {
        comment_at(b, i, last, typed)
    } else if c == 91 {
        match level_at(b, i) {
            Some(level) => match end_of_long(b, i + 2 + level, level) {
                Some(end) => upto(end, STRING, typed),
                None => Piece::Lost,
            },
            None => upto(i + 1, c, typed),
        }
    } else if c == 46 && is_byte_at(b, i + 1, 46) {
        if is_byte_at(b, i + 2, 46) {
            upto(i + 3, c, typed)
        } else {
            upto(i + 2, c, typed)
        }
    } else if c == 58 {
        upto(i + 1, c, typed || last == 93)
    } else if is_symbol_byte(c) {
        upto(i + 1, c, typed)
    } else if c == 126 && is_byte_at(b, i + 1, 61) {
        upto(i + 2, 61, typed)
    } else {
        Piece::Foreign
    }
}

proof fn lemma_run_end(run: Run, b: Seq<u8>, i: int)
    requires
        0 <= i <= b.len(),
    ensures
        i <= run_end(run, b, i) <= b.len(),
    decreases b.len() - i,
{
    if i < b.len() && in_run(run, b[i]) {
        lemma_run_end(run, b, i + 1);
    }
}

/// Whether the parser, after a token, may be where it does not ask whether the
/// next one could be read. A `#` is among them, so that no text is taken for a
/// `#!` line.
pub open spec fn touchy(last: u8) -> bool {
    ||| last == NAME || last == STRING
    ||| last == 35 || last == 41 || last == 46 || last == 58 || last == 62 || last == 63 || last == 64
    ||| last == 91 || last == 125
}

fn is_touchy(last: u8) -> (r: bool)
    ensures
        r == touchy(last),
{
    last == NAME || last == STRING || last == 35 || last == 41 || last == 46 || last == 58 || last
        == 62 || last == 63 || last == 64 || last == 91 || last == 125
}

/// The open braces after a token.
pub open spec fn braces_after(braces: Seq<bool>, change: Braces) -> Seq<bool> {
    match change {
        Braces::Same => braces,
        Braces::Open(inner) => braces.push(inner),
        Braces::Close => if braces.len() > 0 {
            braces.drop_last()
        } else {
            braces
        },
    }
}

/// The first place from an offset on that the parser may not take: a character
/// that is in no token, after a token that it may not follow. Where a string, a
/// comment or a number does not end as it should, any such character later on
/// may come to stand outside of strings, so the first of them is that place.
///
/// A strict reading finds every character that is in no token, and whatever does
/// not end.
pub open spec fn misfit(
    b: Seq<u8>,
    i: int,
    braces: Seq<bool>,
    last: u8,
    typed: bool,
    strict: bool,
) -> Option<int>
    decreases b.len() - i,
{
    if i < 0 || i >= b.len() {
        if strict && braces.len() > 0 {
            Some(b.len() as int)
        } else {
            None
        }
    } else {
        match piece(b, i, last, typed, braces.len() > 0 && braces.last()) {
            Piece::Upto { end, last, typed, braces: change } => if i < end <= b.len() {
                misfit(b, end as int, braces_after(braces, change), last, typed, strict)
            } else {
                None
            },
            Piece::Foreign => if strict || typed || touchy(last) {
                Some(i)
            } else {
                misfit(b, i + 1, braces, b[i], typed, strict)
            },
            Piece::Lost => if strict {
                Some(i)
            } else {
                foreign_from(b, i)
            },
            Piece::Tail => if strict {
                Some(i)
            } else {
                None
            },
        }
    }
}

/// The first place of a text that the parser may not take.
pub open spec fn misfit_of(text: Seq<char>, strict: bool) -> Option<int> {
    misfit(text::bytes(text), 0, Seq::empty(), 0, false, strict)
}

/// Whether the parser can take a text.
pub open spec fn known(text: Seq<char>) -> bool {
    misfit_of(text, false) is None
}

/// Finds the first place of a text that the parser may not take.
pub fn find_misfit(text: &str, strict: bool) -> (r: Option<usize>)
    ensures
        match (r, misfit_of(text@, strict)) {
            (Some(a), Some(at)) => a == at && a <= text::bytes(text@).len(),
            (None, None) => true,
            _ => false,
        },
        !strict ==> (r matches Some(at) ==> at < text::bytes(text@).len() && foreign(
            text::bytes(text@),
            at as int,
        )),
{
    let b = text.as_bytes();
    let mut i: usize = 0;
    let mut braces: Vec<bool> = Vec::new();
    let mut last: u8 = 0;
    let mut typed: bool = false;
    while i < b.len()
        invariant
            b@ == text::bytes(text@),
            i <= b@.len(),
            misfit_of(text@, strict) == misfit(b@, i as int, braces@, last, typed, strict),
        decreases b@.len() - i,
    {
        let inner = braces.len() > 0 && braces[braces.len() - 1];
        match piece_at(b, i, last, typed, inner) {
            Piece::Upto { end, last: next, typed: types, braces: change } => {
                match change {
                    Braces::Same => {},
                    Braces::Open(inner) => {
                        braces.push(inner);
                    },
                    Braces::Close => {
                        if braces.len() > 0 {
                            let _ = braces.pop();
                        }
                    },
                }
                i = end;
                last = next;
                typed = types;
            },
            Piece::Foreign => {
                if strict || typed || is_touchy(last) {
                    return Some(i);
                }
                last = b[i];
                i = i + 1;
            },
            Piece::Lost => {
                return if strict {
                    Some(i)
                } else {
                    find_foreign(b, i)
                };
            },
            Piece::Tail => {
                return if strict {
                    Some(i)
                } else {
                    None
                };
            },
        }
    }
    if strict && braces.len() > 0 {
        Some(b.len())
    } else {
        None
    }
}

/// A text with the character that begins at an offset replaced by a space.
pub open spec fn spaced(text: Seq<char>, at: int) -> Seq<char> {
    text::cut(text, 0, at) + seq![' '] + text::cut(
        text,
        at,
        text::bytes(text).len() as int,
    ).drop_first()
}

/// How many bytes are not spaces.
pub open spec fn inked(b: Seq<u8>) -> nat
    decreases b.len(),
{
    if b.len() == 0 {
        0
    } else {
        inked(b.drop_last()) + if b.last() == 32 {
            0nat
        } else {
            1nat
        }
    }
}

/// A text with a space for each character that the parser may not take.
pub open spec fn tamed(text: Seq<char>) -> Seq<char>
    decreases inked(text::bytes(text)),
{
    match misfit_of(text, false) {
        Some(at) => {
            let next = spaced(text, at);
            if inked(text::bytes(next)) < inked(text::bytes(text)) {
                tamed(next)
            } else {
                text
            }
        },
        None => text,
    }
}

proof fn lemma_inked(a: Seq<u8>, b: Seq<u8>)
    ensures
        inked(a + b) == inked(a) + inked(b),
    decreases b.len(),
{
    if b.len() == 0 {
        assert(a + b =~= a);
    } else {
        assert((a + b).drop_last() =~= a + b.drop_last());
        assert((a + b).last() == b.last());
        lemma_inked(a, b.drop_last());
    }
}

/// Putting a space for a character leaves fewer bytes that are not spaces.
proof fn lemma_spaced(text: Seq<char>, at: int)
    requires
        0 <= at < text::bytes(text).len(),
        foreign(text::bytes(text), at),
    ensures
        text::cuttable(text, 0, at),
        text::cuttable(text, at, text::bytes(text).len() as int),
        text::cut(text, at, text::bytes(text).len() as int).len() > 0,
        inked(text::bytes(spaced(text, at))) < inked(text::bytes(text)),
{
    let b = text::bytes(text);
    text::lemma_boundary_ends(text);
    text::lemma_boundary_byte(text, at);
    let head = text::cut(text, 0, at);
    let tail = text::cut(text, at, b.len() as int);
    text::lemma_cut(text, 0, at);
    text::lemma_cut(text, at, b.len() as int);
    assert(text::bytes(tail)[0] == b[at]);
    if tail.len() == 0 {
        assert(text::bytes(tail) =~= Seq::<u8>::empty());
    }
    let first = tail.take(1);
    let rest = tail.drop_first();
    assert(tail =~= first + rest);
    text::lemma_bytes_concat(first, rest);
    text::lemma_bytes_concat(head, seq![' ']);
    text::lemma_bytes_concat(head + seq![' '], rest);
    reveal_with_fuel(vstd::utf8::encode_utf8, 2);
    vstd::utf8::is_ascii_chars_encode_utf8(seq![' ']);
    assert(text::bytes(seq![' ']) =~= seq![32u8]);
    let one = text::bytes(first);
    if one.len() == 0 {
        vstd::utf8::encode_utf8_first_scalar(first);
    }
    assert(one.len() > 0);
    assert(one[0] == b[at]);
    assert(b =~= text::bytes(head) + (one + text::bytes(rest)));
    lemma_inked(text::bytes(head), one + text::bytes(rest));
    lemma_inked(one, text::bytes(rest));
    assert(one =~= seq![one[0]] + one.drop_first());
    lemma_inked(seq![one[0]], one.drop_first());
    assert(seq![one[0]].drop_last() =~= Seq::<u8>::empty());
    assert(seq![32u8].drop_last() =~= Seq::<u8>::empty());
    reveal_with_fuel(inked, 2);
    assert(inked(seq![32u8]) == 0);
    assert(inked(seq![one[0]]) == 1);
    lemma_inked(text::bytes(head) + seq![32u8], text::bytes(rest));
    lemma_inked(text::bytes(head), seq![32u8]);
}

/// Puts a space for each character that the parser may not take.
pub fn tame(text: &str) -> (r: String)
    ensures
        r@ == tamed(text@),
        known(r@),
{
    let mut tame = text.to_owned();
    loop
        invariant
            tamed(text@) == tamed(tame@),
        decreases inked(text::bytes(tame@)),
    {
        let text = tame.as_str();
        let at: usize = match find_misfit(text, false) {
            Some(at) => at,
            None => {
                return tame;
            },
        };
        proof {
            lemma_spaced(text@, at as int);
            reveal_strlit(" ");
            assert(" "@ =~= seq![' ']);
        }
        let mut next = slice(text, 0, at).to_owned();
        next.append(" ");
        match first_char(slice(text, at, length(text))) {
            Some((_, rest)) => {
                next.append(rest);
            },
            None => {},
        }
        assert(next@ == spaced(text@, at as int));
        tame = next;
    }
}

/// What the parser can take is left as it is.
pub proof fn law_what_the_parser_takes_is_left_alone(text: Seq<char>)
    requires
        known(text),
    ensures
        tamed(text) == text,
{
}

/// No text that the parser can take begins with `#!`.
pub proof fn lemma_known(text: Seq<char>)
    requires
        known(text),
    ensures
        !text::occurs(text::bytes(text), text::bytes("#!"@), 0),
{
    let b = text::bytes(text);
    reveal_strlit("#!");
    vstd::utf8::is_ascii_chars_encode_utf8("#!"@);
    if text::occurs(b, text::bytes("#!"@), 0) {
        assert(b.subrange(0, 2)[0] == b[0] && b.subrange(0, 2)[1] == b[1]);
        reveal_with_fuel(misfit, 2);
        assert(piece(b, 0, 0, false, false) == token(1, 35, false));
        assert(piece(b, 1, 35, false, false) is Foreign);
    }
}

} // verus!
