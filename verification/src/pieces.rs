//! Taking texts apart: at a character, at a prefix, into lines and into words.

use vstd::prelude::*;
use vstd::string::*;

use crate::text::{self, byte_count, ends_with, is_white, length, slice, starts_with, Edge};

verus! {

/// Where a character first stands in a text, or its end.
pub open spec fn first_at(text: Seq<char>, sought: char) -> int
    decreases text.len(),
{
    if text.len() == 0 || text[0] == sought {
        0
    } else {
        1 + first_at(text.drop_first(), sought)
    }
}

pub proof fn lemma_first_at(text: Seq<char>, sought: char)
    ensures
        0 <= first_at(text, sought) <= text.len(),
        forall|i: int| 0 <= i < first_at(text, sought) ==> #[trigger] text[i] != sought,
        first_at(text, sought) < text.len() ==> text[first_at(text, sought)] == sought,
    decreases text.len(),
{
    if text.len() > 0 && text[0] != sought {
        lemma_first_at(text.drop_first(), sought);
        assert forall|i: int| 0 <= i < first_at(text, sought) implies #[trigger] text[i]
            != sought by {
            if i > 0 {
                assert(text.drop_first()[i - 1] == text[i]);
            }
        }
    }
}

pub proof fn lemma_first_at_is(text: Seq<char>, sought: char, n: int)
    requires
        0 <= n <= text.len(),
        forall|i: int| 0 <= i < n ==> #[trigger] text[i] != sought,
        n < text.len() ==> text[n] == sought,
    ensures
        first_at(text, sought) == n,
{
    lemma_first_at(text, sought);
    let m = first_at(text, sought);
    if m < n {
        assert(text[m] != sought);
    }
}

/// A text before and after the first of a character, if it has one.
pub open spec fn split_of(text: Seq<char>, sought: char) -> Option<(Seq<char>, Seq<char>)> {
    let n = first_at(text, sought);
    if n == text.len() {
        None
    } else {
        Some((text.take(n), text.skip(n + 1)))
    }
}

/// `text` before and after the first `sought` in it.
pub fn split_once<'a>(text: &'a str, sought: char) -> (r: Option<(&'a str, &'a str)>)
    ensures
        match (r, split_of(text@, sought)) {
            (Some(a), Some(b)) => a.0@ == b.0 && a.1@ == b.1,
            (None, None) => true,
            _ => false,
        },
{
    let n: usize = length(text);
    let mut index: usize = 0;
    for c in it: text.chars()
        invariant
            it.seq() == text@,
            n == text::bytes(text@).len(),
            index == text::bytes(text@.take(it.index())).len(),
            forall|i: int| 0 <= i < it.index() ==> #[trigger] text@[i] != sought,
    {
        let ghost k = it.index();
        proof {
            assert(text@[k] == c);
            assert(text@.take(k + 1) =~= text@.take(k).push(c));
            text::lemma_bytes_push(text@.take(k), c);
            text::lemma_prefix_boundary_at(text@, k);
            text::lemma_prefix_boundary_at(text@, k + 1);
        }
        let width: usize = byte_count(c);
        if c == sought {
            proof {
                lemma_first_at_is(text@, sought, k);
                text::lemma_cut_chars(text@, 0, k);
                text::lemma_cut_chars(text@, k + 1, text@.len() as int);
                assert(text@.take(0) =~= Seq::<char>::empty());
                assert(text@.take(text@.len() as int) =~= text@);
                assert(text@.subrange(0, k) =~= text@.take(k));
                assert(text@.subrange(k + 1, text@.len() as int) =~= text@.skip(k + 1));
            }
            return Some((slice(text, 0, index), slice(text, index + width, n)));
        }
        index = index + width;
    }
    proof {
        lemma_first_at_is(text@, sought, text@.len() as int);
    }
    None
}

/// Whether a character stands in a text.
pub fn has_char(text: &str, sought: char) -> (r: bool)
    ensures
        r == text@.contains(sought),
{
    proof {
        lemma_first_at(text@, sought);
    }
    match split_once(text, sought) {
        Some(_) => {
            assert(text@[first_at(text@, sought)] == sought);
            true
        },
        None => false,
    }
}

/// Whether a text begins with another.
pub open spec fn begins(text: Seq<char>, prefix: Seq<char>) -> bool {
    prefix.len() <= text.len() && text.take(prefix.len() as int) == prefix
}

/// Whether a text ends with another.
pub open spec fn ends(text: Seq<char>, suffix: Seq<char>) -> bool {
    suffix.len() <= text.len() && text.skip(text.len() - suffix.len()) == suffix
}

/// A text begins with another just when its encoding does.
pub proof fn lemma_begins(text: Seq<char>, prefix: Seq<char>)
    ensures
        begins(text, prefix) <==> text::occurs(text::bytes(text), text::bytes(prefix), 0),
        begins(text, prefix) ==> text::cuttable(
            text,
            text::bytes(prefix).len() as int,
            text::bytes(text).len() as int,
        ) && text::cut(
            text,
            text::bytes(prefix).len() as int,
            text::bytes(text).len() as int,
        ) == text.skip(prefix.len() as int),
{
    let n = text::bytes(prefix).len() as int;
    if begins(text, prefix) {
        let rest = text.skip(prefix.len() as int);
        assert(text =~= prefix + rest);
        text::lemma_bytes_concat(prefix, rest);
        assert(text::bytes(text).subrange(0, n) =~= text::bytes(prefix));
        text::lemma_cut_chars(text, prefix.len() as int, text.len() as int);
        assert(text.take(text.len() as int) =~= text);
        assert(text.subrange(prefix.len() as int, text.len() as int) =~= rest);
    }
    if text::occurs(text::bytes(text), text::bytes(prefix), 0) {
        text::lemma_boundary_ends(text);
        if prefix.len() > 0 {
            text::lemma_occurs_boundaries(text, prefix, 0);
        } else {
            assert(text::bytes(prefix).len() == 0);
        }
        text::lemma_boundary_range(text, n);
        text::lemma_cut(text, 0, n);
        text::lemma_cut(text, n, text::bytes(text).len() as int);
        let head = text::cut(text, 0, n);
        let tail = text::cut(text, n, text::bytes(text).len() as int);
        text::lemma_bytes_injective(head, prefix);
        text::lemma_bytes_concat(head, tail);
        assert(text::bytes(head + tail) =~= text::bytes(text));
        text::lemma_bytes_injective(head + tail, text);
        assert((head + tail).take(prefix.len() as int) =~= prefix);
    }
}

/// A text ends with another just when its encoding does.
pub proof fn lemma_ends(text: Seq<char>, suffix: Seq<char>)
    ensures
        ends(text, suffix) <==> text::occurs(
            text::bytes(text),
            text::bytes(suffix),
            text::bytes(text).len() - text::bytes(suffix).len(),
        ),
        ends(text, suffix) ==> text::cuttable(
            text,
            0,
            text::bytes(text).len() - text::bytes(suffix).len(),
        ) && text::cut(text, 0, text::bytes(text).len() - text::bytes(suffix).len()) == text.take(
            text.len() - suffix.len(),
        ),
{
    let at = text::bytes(text).len() - text::bytes(suffix).len();
    if ends(text, suffix) {
        let k = text.len() - suffix.len();
        let head = text.take(k);
        assert(text =~= head + suffix);
        text::lemma_bytes_concat(head, suffix);
        assert(text::bytes(text).subrange(at, at + text::bytes(suffix).len()) =~= text::bytes(
            suffix,
        ));
        text::lemma_cut_chars(text, 0, k);
        assert(text.take(0) =~= Seq::<char>::empty());
        assert(text.subrange(0, k) =~= head);
    }
    if text::occurs(text::bytes(text), text::bytes(suffix), at) {
        text::lemma_boundary_ends(text);
        if suffix.len() > 0 {
            text::lemma_occurs_boundaries(text, suffix, at);
        } else {
            assert(text::bytes(suffix).len() == 0);
        }
        text::lemma_cut(text, 0, at);
        text::lemma_cut(text, at, text::bytes(text).len() as int);
        let head = text::cut(text, 0, at);
        let tail = text::cut(text, at, text::bytes(text).len() as int);
        text::lemma_bytes_injective(tail, suffix);
        text::lemma_bytes_concat(head, tail);
        assert(text::bytes(head + tail) =~= text::bytes(text));
        text::lemma_bytes_injective(head + tail, text);
        assert((head + tail).skip(text.len() - suffix.len()) =~= suffix);
    }
}

/// What is left of a text without a prefix, if it has it.
pub open spec fn stripped(text: Seq<char>, prefix: Seq<char>) -> Option<Seq<char>> {
    if begins(text, prefix) {
        Some(text.skip(prefix.len() as int))
    } else {
        None
    }
}

/// What is left of a text without a suffix, if it has it.
pub open spec fn unended(text: Seq<char>, suffix: Seq<char>) -> Option<Seq<char>> {
    if ends(text, suffix) {
        Some(text.take(text.len() - suffix.len()))
    } else {
        None
    }
}

/// Whether a string that may be missing is the text promised.
pub open spec fn same_piece(piece: Option<&str>, promised: Option<Seq<char>>) -> bool {
    match (piece, promised) {
        (Some(a), Some(b)) => a@ == b,
        (None, None) => true,
        _ => false,
    }
}

pub fn strip_prefix<'a>(text: &'a str, prefix: &str) -> (r: Option<&'a str>)
    ensures
        same_piece(r, stripped(text@, prefix@)),
{
    proof {
        lemma_begins(text@, prefix@);
    }
    if starts_with(text, prefix) {
        Some(slice(text, length(prefix), length(text)))
    } else {
        None
    }
}

pub fn strip_suffix<'a>(text: &'a str, suffix: &str) -> (r: Option<&'a str>)
    ensures
        same_piece(r, unended(text@, suffix@)),
{
    proof {
        lemma_ends(text@, suffix@);
    }
    if ends_with(text, suffix) {
        Some(slice(text, 0, length(text) - length(suffix)))
    } else {
        None
    }
}

/// What stripping a prefix of one character comes to.
pub proof fn lemma_one_char(text: Seq<char>, prefix: Seq<char>, c: char)
    requires
        prefix.len() == 1,
        prefix[0] == c,
    ensures
        stripped(text, prefix) == if text.len() > 0 && text[0] == c {
            Some(text.drop_first())
        } else {
            None
        },
{
    if text.len() > 0 {
        assert(text.take(1)[0] == text[0]);
        if text[0] == c {
            assert(text.take(1) =~= prefix);
            assert(text.skip(1) =~= text.drop_first());
        }
    }
}

/// What stripping a suffix of one character comes to.
pub proof fn lemma_one_char_end(text: Seq<char>, suffix: Seq<char>, c: char)
    requires
        suffix.len() == 1,
        suffix[0] == c,
    ensures
        unended(text, suffix) == if text.len() > 0 && text.last() == c {
            Some(text.drop_last())
        } else {
            None
        },
{
    if text.len() > 0 {
        let tail = text.skip(text.len() - 1);
        assert(tail[0] == text.last());
        if text.last() == c {
            assert(tail =~= suffix);
            assert(text.take(text.len() - 1) =~= text.drop_last());
        }
    }
}

/// The lines of a text, without their terminators. A carriage return counts as
/// part of one only before a line feed.
pub open spec fn lines_of(text: Seq<char>) -> Seq<Seq<char>>
    decreases text.len(),
    via lines_of_decreases
{
    if text.len() == 0 {
        Seq::empty()
    } else {
        match split_of(text, '\n') {
            None => seq![text],
            Some((line, rest)) => seq![
                match unended(line, "\r"@) {
                    Some(line) => line,
                    None => line,
                },
            ] + lines_of(rest),
        }
    }
}

#[via_fn]
proof fn lines_of_decreases(text: Seq<char>) {
    lemma_first_at(text, '\n');
}

/// The lines of `text`.
pub fn lines<'a>(text: &'a str) -> (r: Vec<&'a str>)
    ensures
        r@.map_values(|line: &'a str| line@) == lines_of(text@),
{
    let mut out: Vec<&'a str> = Vec::new();
    let mut rest: &'a str = text;
    proof {
        assert(out@.map_values(|line: &'a str| line@) + lines_of(text@) =~= lines_of(text@));
    }
    while !rest.is_empty()
        invariant
            lines_of(text@) == out@.map_values(|line: &'a str| line@) + lines_of(rest@),
        decreases rest@.len(),
    {
        let ghost before = out@.map_values(|line: &'a str| line@);
        let ghost old_rest = rest@;
        proof {
            lemma_first_at(rest@, '\n');
        }
        match split_once(rest, '\n') {
            None => {
                out.push(rest);
                proof {
                    let after = out@.map_values(|line: &'a str| line@);
                    assert(after =~= before.push(old_rest));
                    assert(after =~= before + lines_of(old_rest));
                }
                return out;
            },
            Some((line, more)) => {
                let line = match strip_suffix(line, "\r") {
                    Some(line) => line,
                    None => line,
                };
                out.push(line);
                rest = more;
                proof {
                    let after = out@.map_values(|line: &'a str| line@);
                    assert(after =~= before.push(line@));
                    assert(before + (seq![line@] + lines_of(rest@)) =~= after + lines_of(rest@));
                }
            },
        }
    }
    proof {
        assert(lines_of(rest@) =~= Seq::<Seq<char>>::empty());
        assert(out@.map_values(|line: &'a str| line@) + lines_of(rest@) =~= out@.map_values(
            |line: &'a str| line@,
        ));
    }
    out
}

/// How many characters a text begins with that are not white.
pub open spec fn solid(text: Seq<char>) -> int
    decreases text.len(),
{
    if text.len() == 0 || text::white(text[0]) {
        0
    } else {
        1 + solid(text.drop_first())
    }
}

/// The first word of a text, and what follows it.
pub open spec fn word_of(text: Seq<char>) -> Option<(Seq<char>, Seq<char>)> {
    let rest = text.skip(text::leading(text, Edge::White));
    let n = solid(rest);
    if n == 0 {
        None
    } else {
        Some((rest.take(n), rest.skip(n)))
    }
}

pub proof fn lemma_solid_is(text: Seq<char>, n: int)
    requires
        0 <= n <= text.len(),
        forall|i: int| 0 <= i < n ==> !text::white(#[trigger] text[i]),
        n < text.len() ==> text::white(text[n]),
    ensures
        solid(text) == n,
    decreases n,
{
    if n > 0 {
        assert(!text::white(text[0]));
        assert forall|i: int| 0 <= i < n - 1 implies !text::white(
            #[trigger] text.drop_first()[i],
        ) by {
            assert(!text::white(text[i + 1]));
        }
        lemma_solid_is(text.drop_first(), n - 1);
    }
}

/// The first word of `text`, and what follows it.
pub fn next_word<'a>(text: &'a str) -> (r: Option<(&'a str, &'a str)>)
    ensures
        match (r, word_of(text@)) {
            (Some(a), Some(b)) => a.0@ == b.0 && a.1@ == b.1,
            (None, None) => true,
            _ => false,
        },
{
    let n: usize = length(text);
    let mut index: usize = 0;
    let mut start: usize = 0;
    let mut begun = false;
    let ghost mut a: int = 0;
    for c in it: text.chars()
        invariant
            it.seq() == text@,
            n == text::bytes(text@).len(),
            index == text::bytes(text@.take(it.index())).len(),
            0 <= a <= it.index() <= text@.len(),
            forall|j: int| 0 <= j < a ==> text::white(#[trigger] text@[j]),
            forall|j: int| a <= j < it.index() ==> !text::white(#[trigger] text@[j]),
            !begun ==> a == it.index(),
            begun ==> a < it.index() && start == text::bytes(text@.take(a)).len(),
    {
        let ghost k = it.index();
        proof {
            assert(text@[k] == c);
            assert(text@.take(k + 1) =~= text@.take(k).push(c));
            text::lemma_bytes_push(text@.take(k), c);
            text::lemma_prefix_bytes(text@, k + 1);
        }
        let width: usize = byte_count(c);
        if is_white(c) {
            if begun {
                proof {
                    lemma_word(text@, a, k);
                }
                return Some((slice(text, start, index), slice(text, index, n)));
            }
            proof {
                a = k + 1;
            }
        } else if !begun {
            begun = true;
            start = index;
        }
        index = index + width;
    }
    proof {
        assert(text@.take(text@.len() as int) =~= text@);
        lemma_word(text@, a, text@.len() as int);
    }
    if begun {
        Some((slice(text, start, index), slice(text, index, n)))
    } else {
        None
    }
}

proof fn lemma_word(text: Seq<char>, a: int, z: int)
    requires
        0 <= a <= z <= text.len(),
        forall|j: int| 0 <= j < a ==> text::white(#[trigger] text[j]),
        forall|j: int| a <= j < z ==> !text::white(#[trigger] text[j]),
        z < text.len() ==> text::white(text[z]),
        a == z ==> a == text.len(),
    ensures
        a == z ==> word_of(text) is None,
        a < z ==> {
            &&& word_of(text) == Some((text.subrange(a, z), text.skip(z)))
            &&& text::cuttable(
                text,
                text::bytes(text.take(a)).len() as int,
                text::bytes(text.take(z)).len() as int,
            )
            &&& text::cut(
                text,
                text::bytes(text.take(a)).len() as int,
                text::bytes(text.take(z)).len() as int,
            ) == text.subrange(a, z)
            &&& text::cuttable(
                text,
                text::bytes(text.take(z)).len() as int,
                text::bytes(text).len() as int,
            )
            &&& text::cut(
                text,
                text::bytes(text.take(z)).len() as int,
                text::bytes(text).len() as int,
            ) == text.skip(z)
        },
{
    if a < z {
        assert(!text::white(text[a]));
    }
    text::lemma_leading(text, Edge::White, a);
    let rest = text.skip(a);
    assert forall|i: int| 0 <= i < z - a implies !text::white(#[trigger] rest[i]) by {
        assert(!text::white(text[a + i]));
    }
    lemma_solid_is(rest, z - a);
    if a < z {
        text::lemma_cut_chars(text, a, z);
        text::lemma_cut_chars(text, z, text.len() as int);
        assert(text.take(text.len() as int) =~= text);
        assert(rest.take(z - a) =~= text.subrange(a, z));
        assert(rest.skip(z - a) =~= text.skip(z));
        assert(text.subrange(z, text.len() as int) =~= text.skip(z));
    }
}

/// Whether a character may begin a name.
pub open spec fn name_start(c: char) -> bool {
    c == '_' || 'a' <= c <= 'z' || 'A' <= c <= 'Z'
}

/// Whether a character may stand in a name.
pub open spec fn name_part(c: char) -> bool {
    name_start(c) || '0' <= c <= '9'
}

/// Whether a text is a plain identifier.
pub open spec fn plain_name(text: Seq<char>) -> bool {
    &&& text.len() > 0
    &&& name_start(text[0])
    &&& forall|i: int| 0 <= i < text.len() ==> name_part(#[trigger] text[i])
}

pub fn is_name_part(c: char) -> (r: bool)
    ensures
        r == name_part(c),
{
    c == '_' || 'a' <= c && c <= 'z' || 'A' <= c && c <= 'Z' || '0' <= c && c <= '9'
}

/// Whether a text is a plain identifier.
pub fn is_name(text: &str) -> (r: bool)
    ensures
        r == plain_name(text@),
{
    let mut first = true;
    for c in it: text.chars()
        invariant
            it.seq() == text@,
            first == (it.index() == 0),
            it.index() > 0 ==> name_start(text@[0]),
            forall|i: int| 0 <= i < it.index() ==> name_part(#[trigger] text@[i]),
    {
        assert(text@[it.index()] == c);
        if !is_name_part(c) || first && '0' <= c && c <= '9' {
            return false;
        }
        first = false;
    }
    !first
}

/// `text` without its first character, and that character.
pub fn first_char<'a>(text: &'a str) -> (r: Option<(&'a str, &'a str)>)
    ensures
        match r {
            Some((first, rest)) => text@.len() > 0 && first@ == text@.take(1) && rest@
                == text@.drop_first(),
            None => text@.len() == 0,
        },
{
    if text.is_empty() {
        return None;
    }
    let c = text.get_char(0);
    let width: usize = byte_count(c);
    proof {
        assert(text@.take(0) =~= Seq::<char>::empty());
        assert(text@.take(1) =~= Seq::<char>::empty().push(c));
        text::lemma_bytes_push(Seq::<char>::empty(), c);
        text::lemma_cut_chars(text@, 0, 1);
        text::lemma_cut_chars(text@, 1, text@.len() as int);
        assert(text@.take(text@.len() as int) =~= text@);
        assert(text@.subrange(0, 1) =~= text@.take(1));
        assert(text@.subrange(1, text@.len() as int) =~= text@.drop_first());
    }
    Some((slice(text, 0, width), slice(text, width, length(text))))
}

} // verus!
