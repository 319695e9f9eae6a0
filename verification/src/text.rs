//! Text, as the rest of the library sees it.
//!
//! A document is a sequence of characters, and every offset that the server
//! handles is a byte offset into its UTF-8 encoding. This module relates the
//! two, and holds the few string operations that everything else is built on.

use vstd::prelude::*;
use vstd::string::*;
use vstd::utf8::*;

verus! {

/// The UTF-8 encoding of `text`.
pub open spec fn bytes(text: Seq<char>) -> Seq<u8> {
    encode_utf8(text)
}

/// Whether `offset` is where a character of `text` begins, or its end.
pub open spec fn boundary(text: Seq<char>, offset: int) -> bool {
    is_char_boundary(encode_utf8(text), offset)
}

/// The characters of `text` between two byte offsets.
pub open spec fn cut(text: Seq<char>, start: int, end: int) -> Seq<char> {
    decode_utf8(encode_utf8(text).subrange(start, end))
}

/// Whether `start..end` can be cut out of `text`.
pub open spec fn cuttable(text: Seq<char>, start: int, end: int) -> bool {
    &&& 0 <= start <= end <= bytes(text).len()
    &&& boundary(text, start)
    &&& boundary(text, end)
}

/// Encoding loses nothing.
pub proof fn lemma_bytes_injective(a: Seq<char>, b: Seq<char>)
    requires
        bytes(a) == bytes(b),
    ensures
        a == b,
{
    encode_utf8_decode_utf8(a);
    encode_utf8_decode_utf8(b);
}

/// The encoding of a concatenation is the concatenation of the encodings.
pub proof fn lemma_bytes_concat(a: Seq<char>, b: Seq<char>)
    ensures
        bytes(a + b) == bytes(a) + bytes(b),
    decreases a.len(),
{
    if a.len() == 0 {
        assert(a + b =~= b);
        assert(bytes(a) + bytes(b) =~= bytes(b));
    } else {
        lemma_bytes_concat(a.drop_first(), b);
        assert((a + b).drop_first() =~= a.drop_first() + b);
        assert((a + b)[0] == a[0]);
        assert(bytes(a + b) =~= bytes(a) + bytes(b));
    }
}

/// An offset within valid UTF-8 is a boundary unless a continuation byte
/// stands there.
pub proof fn lemma_boundary_byte(text: Seq<char>, offset: int)
    requires
        0 <= offset <= bytes(text).len(),
    ensures
        boundary(text, offset) <==> (offset == bytes(text).len() || !is_continuation_byte(
            bytes(text)[offset],
        )),
{
    encode_utf8_valid_utf8(text);
    is_char_boundary_start_end_of_seq(bytes(text));
    if offset < bytes(text).len() {
        is_char_boundary_iff_not_is_continuation_byte(bytes(text), offset);
    }
}

/// Boundaries lie within the text.
pub proof fn lemma_boundary_range(text: Seq<char>, offset: int)
    requires
        boundary(text, offset),
    ensures
        0 <= offset <= bytes(text).len(),
{
    encode_utf8_valid_utf8(text);
    lemma_char_boundary_range(bytes(text), offset);
}

proof fn lemma_char_boundary_range(b: Seq<u8>, offset: int)
    requires
        valid_utf8(b),
        is_char_boundary(b, offset),
    ensures
        0 <= offset <= b.len(),
{
    reveal_with_fuel(is_char_boundary, 1);
}

/// Both ends of a text are boundaries.
pub proof fn lemma_boundary_ends(text: Seq<char>)
    ensures
        boundary(text, 0),
        boundary(text, bytes(text).len() as int),
{
    encode_utf8_valid_utf8(text);
    is_char_boundary_start_end_of_seq(bytes(text));
}

/// After the character that begins at a boundary comes another boundary.
proof fn lemma_char_boundary_step(b: Seq<u8>, offset: int)
    requires
        valid_utf8(b),
        is_char_boundary(b, offset),
        offset < b.len(),
    ensures
        valid_first_scalar(b.subrange(offset, b.len() as int)),
        is_char_boundary(
            b,
            offset + length_of_first_scalar(b.subrange(offset, b.len() as int)),
        ),
    decreases b.len(),
{
    lemma_char_boundary_range(b, offset);
    if offset == 0 {
        assert(b.subrange(0, b.len() as int) =~= b);
        let rest = pop_first_scalar(b);
        reveal_with_fuel(is_char_boundary, 2);
        assert(is_char_boundary(rest, 0));
    } else {
        let n = length_of_first_scalar(b);
        let rest = pop_first_scalar(b);
        lemma_char_boundary_step(rest, offset - n);
        lemma_char_boundary_range(rest, offset - n);
        assert(rest.subrange(offset - n, rest.len() as int) =~= b.subrange(offset, b.len() as int));
        let m = length_of_first_scalar(b.subrange(offset, b.len() as int));
        assert(is_char_boundary(rest, offset - n + m));
        lemma_char_boundary_range(rest, offset - n + m);
    }
}

/// A single-byte character has a boundary on either side.
pub proof fn lemma_ascii_boundaries(text: Seq<char>, offset: int)
    requires
        0 <= offset < bytes(text).len(),
        bytes(text)[offset] < 0x80,
    ensures
        boundary(text, offset),
        boundary(text, offset + 1),
{
    lemma_boundary_byte(text, offset);
    encode_utf8_valid_utf8(text);
    lemma_char_boundary_step(bytes(text), offset);
    assert(bytes(text).subrange(offset, bytes(text).len() as int)[0] == bytes(text)[offset]);
}

/// What cutting gives: its encoding is the bytes that were cut.
pub proof fn lemma_cut(text: Seq<char>, start: int, end: int)
    requires
        cuttable(text, start, end),
    ensures
        bytes(cut(text, start, end)) == bytes(text).subrange(start, end),
{
    let b = bytes(text);
    encode_utf8_valid_utf8(text);
    valid_utf8_split(b, end);
    let head = b.subrange(0, end);
    lemma_prefix_boundary(b, start, end);
    valid_utf8_split(head, start);
    assert(head.subrange(start, head.len() as int) =~= b.subrange(start, end));
    decode_utf8_encode_utf8(b.subrange(start, end));
}

/// A boundary of a text is a boundary of each prefix that ends at a boundary.
proof fn lemma_prefix_boundary(b: Seq<u8>, start: int, end: int)
    requires
        valid_utf8(b),
        is_char_boundary(b, start),
        is_char_boundary(b, end),
        0 <= start <= end <= b.len(),
    ensures
        valid_utf8(b.subrange(0, end)),
        is_char_boundary(b.subrange(0, end), start),
{
    valid_utf8_split(b, end);
    let head = b.subrange(0, end);
    is_char_boundary_start_end_of_seq(head);
    if start < end {
        is_char_boundary_iff_not_is_continuation_byte(b, start);
        is_char_boundary_iff_not_is_continuation_byte(head, start);
    }
}

/// How many bytes `text` takes.
pub fn length(text: &str) -> (r: usize)
    ensures
        r == bytes(text@).len(),
{
    text.as_bytes().len()
}

/// Whether two strings are the same text.
pub fn same(a: &str, b: &str) -> (r: bool)
    ensures
        r == (a@ == b@),
{
    let x = a.as_bytes();
    let y = b.as_bytes();
    if x.len() != y.len() {
        return false;
    }
    let mut i: usize = 0;
    while i < x.len()
        invariant
            i <= x.len(),
            x.len() == y.len(),
            x@ == bytes(a@),
            y@ == bytes(b@),
            forall|j: int| 0 <= j < i ==> x@[j] == y@[j],
        decreases x.len() - i,
    {
        if x[i] != y[i] {
            return false;
        }
        i = i + 1;
    }
    proof {
        assert(x@ =~= y@);
        lemma_bytes_injective(a@, b@);
    }
    true
}

/// The text between two boundaries.
pub fn slice(text: &str, start: usize, end: usize) -> (r: &str)
    requires
        cuttable(text@, start as int, end as int),
    ensures
        r@ == cut(text@, start as int, end as int),
        bytes(r@) == bytes(text@).subrange(start as int, end as int),
{
    proof {
        encode_utf8_valid_utf8(text@);
        lemma_prefix_boundary(bytes(text@), start as int, end as int);
        lemma_cut(text@, start as int, end as int);
    }
    let (head, _) = text.split_at(end);
    let (_, r) = head.split_at(start);
    proof {
        assert(bytes(r@) =~= bytes(text@).subrange(start as int, end as int));
        lemma_bytes_injective(r@, cut(text@, start as int, end as int));
    }
    r
}

/// The text between two offsets, if both are boundaries and in order.
pub fn get(text: &str, start: usize, end: usize) -> (r: Option<&str>)
    ensures
        r is Some <==> cuttable(text@, start as int, end as int),
        r matches Some(s) ==> s@ == cut(text@, start as int, end as int) && bytes(s@) == bytes(
            text@,
        ).subrange(start as int, end as int),
{
    if start > end || !text.is_char_boundary(start) || !text.is_char_boundary(end) {
        return None;
    }
    proof {
        lemma_boundary_range(text@, start as int);
        lemma_boundary_range(text@, end as int);
    }
    Some(slice(text, start, end))
}

/// How many bytes the encoding of one character takes.
pub fn byte_count(c: char) -> (r: usize)
    ensures
        r == encode_scalar(c as u32).len(),
{
    let value: u32 = c as u32;
    if value <= 0x7F {
        1
    } else if value <= 0x7FF {
        2
    } else if value <= 0xFFFF {
        3
    } else {
        4
    }
}

/// Appending a character appends its encoding.
pub proof fn lemma_bytes_push(chars: Seq<char>, c: char)
    ensures
        bytes(chars.push(c)) == bytes(chars) + encode_scalar(c as u32),
{
    lemma_bytes_concat(chars, seq![c]);
    assert(chars + seq![c] =~= chars.push(c));
    assert(seq![c].drop_first() =~= Seq::<char>::empty());
    reveal_with_fuel(encode_utf8, 2);
    assert(encode_utf8(seq![c]) =~= encode_scalar(c as u32));
}

pub proof fn lemma_prefix_bytes(chars: Seq<char>, n: int)
    requires
        0 <= n <= chars.len(),
    ensures
        bytes(chars.take(n)).len() <= bytes(chars).len(),
{
    assert(chars =~= chars.take(n) + chars.skip(n));
    lemma_bytes_concat(chars.take(n), chars.skip(n));
}

/// A prefix of characters ends at a boundary.
pub proof fn lemma_prefix_boundary_at(chars: Seq<char>, n: int)
    requires
        0 <= n <= chars.len(),
    ensures
        boundary(chars, bytes(chars.take(n)).len() as int),
        bytes(chars.take(n)).len() <= bytes(chars).len(),
{
    let head = chars.take(n);
    let tail = chars.skip(n);
    assert(chars =~= head + tail);
    lemma_bytes_concat(head, tail);
    let at = bytes(head).len() as int;
    lemma_boundary_byte(chars, at);
    if at < bytes(chars).len() {
        assert(bytes(chars)[at] == bytes(tail)[0]);
        lemma_boundary_ends(tail);
        lemma_boundary_byte(tail, 0);
    }
}

/// What follows a text is what is left once it is cut off.
pub proof fn lemma_cut_after(head: Seq<char>, tail: Seq<char>)
    ensures
        cuttable(head + tail, bytes(head).len() as int, bytes(head + tail).len() as int),
        cut(head + tail, bytes(head).len() as int, bytes(head + tail).len() as int) == tail,
{
    let whole = head + tail;
    assert(whole.take(head.len() as int) =~= head);
    lemma_prefix_boundary_at(whole, head.len() as int);
    lemma_boundary_ends(whole);
    lemma_bytes_concat(head, tail);
    let (at, end) = (bytes(head).len() as int, bytes(whole).len() as int);
    lemma_cut(whole, at, end);
    assert(bytes(whole).subrange(at, end) =~= bytes(tail));
    lemma_bytes_injective(cut(whole, at, end), tail);
}

/// A boundary of a piece of a text is a boundary of the text.
pub proof fn lemma_boundary_inside(text: Seq<char>, start: int, end: int, within: int)
    requires
        cuttable(text, start, end),
        0 <= within <= end - start,
        boundary(cut(text, start, end), within),
    ensures
        boundary(text, start + within),
{
    let piece = cut(text, start, end);
    lemma_cut(text, start, end);
    lemma_boundary_byte(piece, within);
    lemma_boundary_byte(text, start + within);
    if within < end - start {
        assert(bytes(piece)[within] == bytes(text)[start + within]);
    }
}

/// Whether a character is white space, as Unicode's `White_Space` has it.
pub open spec fn white(c: char) -> bool {
    let v = c as u32;
    ||| 0x09 <= v <= 0x0D
    ||| v == 0x20
    ||| v == 0x85
    ||| v == 0xA0
    ||| v == 0x1680
    ||| 0x2000 <= v <= 0x200A
    ||| v == 0x2028
    ||| v == 0x2029
    ||| v == 0x202F
    ||| v == 0x205F
    ||| v == 0x3000
}

pub fn is_white(c: char) -> (r: bool)
    ensures
        r == white(c),
{
    let v: u32 = c as u32;
    0x09 <= v && v <= 0x0D || v == 0x20 || v == 0x85 || v == 0xA0 || v == 0x1680 || 0x2000 <= v
        && v <= 0x200A || v == 0x2028 || v == 0x2029 || v == 0x202F || v == 0x205F || v == 0x3000
}

/// What can be taken off the ends of a text.
#[derive(Debug, Clone, Copy, PartialEq, Eq, Structural)]
pub enum Edge {
    /// White space.
    White,
    /// `"` and `'`.
    Quotes,
    /// `"` alone.
    DoubleQuotes,
}

impl Edge {
    pub open spec fn takes(self, c: char) -> bool {
        match self {
            Edge::White => white(c),
            Edge::Quotes => c == '"' || c == '\'',
            Edge::DoubleQuotes => c == '"',
        }
    }

    pub fn strips(self, c: char) -> (r: bool)
        ensures
            r == self.takes(c),
    {
        match self {
            Edge::White => is_white(c),
            Edge::Quotes => c == '"' || c == '\'',
            Edge::DoubleQuotes => c == '"',
        }
    }
}

/// How many characters can be taken off the front of a text.
pub open spec fn leading(text: Seq<char>, edge: Edge) -> int
    decreases text.len(),
{
    if text.len() == 0 || !edge.takes(text[0]) {
        0
    } else {
        1 + leading(text.drop_first(), edge)
    }
}

/// How many can be taken off its end.
pub open spec fn trailing(text: Seq<char>, edge: Edge) -> int
    decreases text.len(),
{
    if text.len() == 0 || !edge.takes(text.last()) {
        0
    } else {
        1 + trailing(text.drop_last(), edge)
    }
}

/// A text with both ends taken off.
pub open spec fn trimmed(text: Seq<char>, edge: Edge) -> Seq<char> {
    if leading(text, edge) == text.len() {
        Seq::empty()
    } else {
        text.subrange(leading(text, edge), text.len() - trailing(text, edge))
    }
}

pub proof fn lemma_leading(text: Seq<char>, edge: Edge, n: int)
    requires
        0 <= n <= text.len(),
        forall|i: int| 0 <= i < n ==> edge.takes(#[trigger] text[i]),
        n < text.len() ==> !edge.takes(text[n]),
    ensures
        leading(text, edge) == n,
    decreases n,
{
    if n > 0 {
        assert forall|i: int| 0 <= i < n - 1 implies edge.takes(#[trigger] text.drop_first()[i]) by {
            assert(edge.takes(text[i + 1]));
        }
        assert(edge.takes(text[0]));
        lemma_leading(text.drop_first(), edge, n - 1);
    }
}

/// Trimming makes nothing longer.
pub proof fn lemma_trimmed_length(text: Seq<char>, edge: Edge)
    ensures
        trimmed(text, edge).len() <= text.len(),
{
    lemma_leading_stops(text, edge);
    if leading(text, edge) < text.len() {
        lemma_trailing_stops(text, edge, leading(text, edge));
    }
}

proof fn lemma_leading_stops(text: Seq<char>, edge: Edge)
    ensures
        0 <= leading(text, edge) <= text.len(),
        leading(text, edge) < text.len() ==> !edge.takes(text[leading(text, edge)]),
    decreases text.len(),
{
    if text.len() > 0 {
        lemma_leading_stops(text.drop_first(), edge);
    }
}

proof fn lemma_trailing_stops(text: Seq<char>, edge: Edge, at: int)
    requires
        0 <= at < text.len(),
        !edge.takes(text[at]),
    ensures
        0 <= trailing(text, edge) < text.len() - at,
    decreases text.len(),
{
    if edge.takes(text.last()) {
        lemma_trailing_stops(text.drop_last(), edge, at);
    }
}

/// A text whose first and last characters stay is trimmed already.
pub proof fn lemma_untrimmed(text: Seq<char>, edge: Edge)
    requires
        text.len() > 0,
        !edge.takes(text[0]),
        !edge.takes(text.last()),
    ensures
        trimmed(text, edge) == text,
{
    assert(text.subrange(0, text.len() as int) =~= text);
}

/// A first character that can be taken off makes no difference.
pub proof fn lemma_trimmed_first(text: Seq<char>, edge: Edge)
    requires
        text.len() > 0,
        edge.takes(text[0]),
    ensures
        trimmed(text, edge) == trimmed(text.drop_first(), edge),
{
    let rest = text.drop_first();
    lemma_leading_stops(rest, edge);
    if leading(rest, edge) < rest.len() {
        lemma_trailing_stops(rest, edge, leading(rest, edge));
        lemma_trailing_first(text, edge, leading(rest, edge));
        assert(trimmed(text, edge) =~= trimmed(rest, edge));
    }
}

proof fn lemma_trailing_first(text: Seq<char>, edge: Edge, at: int)
    requires
        text.len() > 0,
        0 <= at < text.drop_first().len(),
        !edge.takes(text.drop_first()[at]),
    ensures
        trailing(text, edge) == trailing(text.drop_first(), edge),
    decreases text.len(),
{
    if edge.takes(text.last()) {
        assert(text.drop_last().drop_first() =~= text.drop_first().drop_last());
        assert(text.drop_first().last() == text.last());
        lemma_trailing_first(text.drop_last(), edge, at);
    }
}

/// Nor does a last one.
pub proof fn lemma_trimmed_last(text: Seq<char>, edge: Edge)
    requires
        text.len() > 0,
        edge.takes(text.last()),
    ensures
        trimmed(text, edge) == trimmed(text.drop_last(), edge),
{
    let front = text.drop_last();
    lemma_leading_last(text, edge);
    lemma_leading_stops(front, edge);
    if leading(front, edge) < front.len() {
        lemma_trailing_stops(front, edge, leading(front, edge));
        assert(trimmed(text, edge) =~= trimmed(front, edge));
    }
}

proof fn lemma_leading_last(text: Seq<char>, edge: Edge)
    requires
        text.len() > 0,
        edge.takes(text.last()),
    ensures
        leading(text, edge) == if leading(text.drop_last(), edge) == text.len() - 1 {
            text.len() as int
        } else {
            leading(text.drop_last(), edge)
        },
    decreases text.len(),
{
    if text.len() == 1 {
        reveal_with_fuel(leading, 2);
    } else if edge.takes(text[0]) {
        assert(text.drop_first().drop_last() =~= text.drop_last().drop_first());
        lemma_leading_last(text.drop_first(), edge);
    }
}

/// What is left has nothing more to take off.
pub proof fn lemma_trimmed_ends(text: Seq<char>, edge: Edge)
    ensures
        trimmed(text, edge).len() > 0 ==> !edge.takes(trimmed(text, edge)[0]) && !edge.takes(
            trimmed(text, edge).last(),
        ),
        trimmed(trimmed(text, edge), edge) == trimmed(text, edge),
    decreases text.len(),
{
    if text.len() > 0 {
        if edge.takes(text[0]) {
            lemma_trimmed_first(text, edge);
            lemma_trimmed_ends(text.drop_first(), edge);
        } else if edge.takes(text.last()) {
            lemma_trimmed_last(text, edge);
            lemma_trimmed_ends(text.drop_last(), edge);
        } else {
            lemma_untrimmed(text, edge);
        }
    }
}

proof fn lemma_trailing(text: Seq<char>, edge: Edge, n: int)
    requires
        0 <= n <= text.len(),
        forall|i: int| text.len() - n <= i < text.len() ==> edge.takes(#[trigger] text[i]),
        n < text.len() ==> !edge.takes(text[text.len() - n - 1]),
    ensures
        trailing(text, edge) == n,
    decreases n,
{
    if n > 0 {
        assert(edge.takes(text[text.len() - 1]));
        lemma_trailing(text.drop_last(), edge, n - 1);
    }
}

/// Where a text begins and ends once trimmed; an empty span at its end if
/// nothing is left.
pub fn trim_span(text: &str, edge: Edge) -> (r: (usize, usize))
    ensures
        r.0 == bytes(text@.take(leading(text@, edge))).len(),
        r.1 - r.0 == bytes(trimmed(text@, edge)).len(),
        r.0 <= r.1 <= bytes(text@).len(),
        cuttable(text@, r.0 as int, r.1 as int),
        r.0 == r.1 <==> trimmed(text@, edge).len() == 0,
        cut(text@, r.0 as int, r.1 as int) == trimmed(text@, edge),
{
    let n: usize = length(text);
    let mut index: usize = 0;
    let mut seen = false;
    let mut start: usize = 0;
    let mut end: usize = 0;
    let ghost mut a: int = 0;
    let ghost mut z: int = 0;
    for c in it: text.chars()
        invariant
            it.seq() == text@,
            n == bytes(text@).len(),
            index == bytes(text@.take(it.index())).len(),
            0 <= a <= it.index() <= text@.len(),
            forall|j: int| 0 <= j < a ==> edge.takes(#[trigger] text@[j]),
            !seen ==> a == it.index(),
            seen ==> {
                &&& a < z <= it.index()
                &&& !edge.takes(text@[a])
                &&& !edge.takes(text@[z - 1])
                &&& forall|j: int| z <= j < it.index() ==> edge.takes(#[trigger] text@[j])
                &&& start == bytes(text@.take(a)).len()
                &&& end == bytes(text@.take(z)).len()
            },
    {
        proof {
            assert(text@.take(it.index() + 1) =~= text@.take(it.index()).push(c));
            lemma_bytes_push(text@.take(it.index()), c);
            lemma_prefix_bytes(text@, it.index() + 1);
        }
        let next: usize = index + byte_count(c);
        if edge.strips(c) {
            proof {
                if !seen {
                    a = it.index() + 1;
                }
            }
        } else {
            if !seen {
                start = index;
                seen = true;
            }
            end = next;
            proof {
                z = it.index() + 1;
            }
        }
        index = next;
    }
    proof {
        assert(text@.take(text@.len() as int) =~= text@);
        lemma_leading(text@, edge, a);
        if seen {
            lemma_trailing(text@, edge, text@.len() - z);
            lemma_prefix_boundary_at(text@, a);
            lemma_prefix_boundary_at(text@, z);
            lemma_cut_chars(text@, a, z);
        } else {
            lemma_boundary_ends(text@);
            lemma_cut(text@, n as int, n as int);
            assert(bytes(cut(text@, n as int, n as int)) =~= bytes(Seq::<char>::empty()));
            lemma_bytes_injective(cut(text@, n as int, n as int), Seq::<char>::empty());
        }
    }
    if seen {
        (start, end)
    } else {
        (n, n)
    }
}

/// `text` with both ends taken off.
pub fn trim(text: &str, edge: Edge) -> (r: &str)
    ensures
        r@ == trimmed(text@, edge),
{
    let (start, end) = trim_span(text, edge);
    slice(text, start, end)
}

/// Cutting between characters gives the characters between.
pub proof fn lemma_cut_chars(text: Seq<char>, a: int, z: int)
    requires
        0 <= a <= z <= text.len(),
    ensures
        cuttable(text, bytes(text.take(a)).len() as int, bytes(text.take(z)).len() as int),
        cut(text, bytes(text.take(a)).len() as int, bytes(text.take(z)).len() as int)
            == text.subrange(a, z),
        bytes(text.take(z)).len() - bytes(text.take(a)).len() == bytes(text.subrange(a, z)).len(),
        a < z ==> bytes(text.take(a)).len() < bytes(text.take(z)).len(),
{
    let head = text.take(a);
    let middle = text.subrange(a, z);
    let tail = text.skip(z);
    lemma_prefix_boundary_at(text, a);
    lemma_prefix_boundary_at(text, z);
    assert(text.take(z) =~= head + middle);
    assert(text =~= text.take(z) + tail);
    lemma_bytes_concat(head, middle);
    lemma_bytes_concat(text.take(z), tail);
    let i = bytes(head).len() as int;
    let j = bytes(text.take(z)).len() as int;
    assert(bytes(text).subrange(i, j) =~= bytes(middle));
    lemma_cut(text, i, j);
    lemma_bytes_injective(cut(text, i, j), middle);
    if a < z {
        encode_utf8_first_scalar(middle);
    }
}

/// Whether `needle` stands at an offset of `hay`.
pub open spec fn occurs(hay: Seq<u8>, needle: Seq<u8>, at: int) -> bool {
    &&& 0 <= at
    &&& at + needle.len() <= hay.len()
    &&& hay.subrange(at, at + needle.len()) == needle
}

/// The first place at or after `from` where `needle` stands.
pub open spec fn found(hay: Seq<u8>, needle: Seq<u8>, from: int) -> Option<int>
    decreases hay.len() - from + 1,
{
    if from < 0 || from + needle.len() > hay.len() {
        None
    } else if occurs(hay, needle, from) {
        Some(from)
    } else {
        found(hay, needle, from + 1)
    }
}

/// The last place at or before `from` where `needle` stands.
pub open spec fn rfound(hay: Seq<u8>, needle: Seq<u8>, from: int) -> Option<int>
    decreases from + 1,
{
    if from < 0 {
        None
    } else if occurs(hay, needle, from) {
        Some(from)
    } else {
        rfound(hay, needle, from - 1)
    }
}

/// What [`found`] finds: an occurrence, with none before it.
pub proof fn lemma_found(hay: Seq<u8>, needle: Seq<u8>, from: int)
    requires
        0 <= from,
    ensures
        match found(hay, needle, from) {
            Some(at) => from <= at && occurs(hay, needle, at) && forall|i: int|
                from <= i < at ==> !occurs(hay, needle, i),
            None => forall|i: int| from <= i ==> !occurs(hay, needle, i),
        },
    decreases hay.len() - from + 1,
{
    if from + needle.len() <= hay.len() && !occurs(hay, needle, from) {
        lemma_found(hay, needle, from + 1);
    }
}

/// What [`rfound`] finds: an occurrence, with none after it.
pub proof fn lemma_rfound(hay: Seq<u8>, needle: Seq<u8>, from: int)
    ensures
        match rfound(hay, needle, from) {
            Some(at) => at <= from && occurs(hay, needle, at) && forall|i: int|
                at < i <= from ==> !occurs(hay, needle, i),
            None => forall|i: int| i <= from ==> !occurs(hay, needle, i),
        },
    decreases from + 1,
{
    if 0 <= from && !occurs(hay, needle, from) {
        lemma_rfound(hay, needle, from - 1);
    }
}

/// A text that stands inside another stands between boundaries of it.
pub proof fn lemma_occurs_boundaries(hay: Seq<char>, needle: Seq<char>, at: int)
    requires
        occurs(bytes(hay), bytes(needle), at),
        needle.len() > 0,
    ensures
        boundary(hay, at),
        boundary(hay, at + bytes(needle).len()),
{
    let n = bytes(needle).len() as int;
    encode_utf8_first_scalar(needle);
    assert(n > 0);
    lemma_boundary_ends(needle);
    lemma_boundary_byte(needle, 0);
    lemma_boundary_byte(hay, at);
    assert(bytes(hay).subrange(at, at + n)[0] == bytes(hay)[at]);
    assert(boundary(hay, at));
    // The rest of `hay` begins with the whole characters of `needle`.
    encode_utf8_valid_utf8(hay);
    encode_utf8_valid_utf8(needle);
    valid_utf8_split(bytes(hay), at);
    let rest = bytes(hay).subrange(at, bytes(hay).len() as int);
    assert(rest.subrange(0, n) =~= bytes(needle));
    lemma_valid_prefix(bytes(needle), rest);
    lemma_char_boundary_shift(bytes(hay), at, n);
}

/// Valid UTF-8 that begins with valid UTF-8 has a boundary where that ends.
proof fn lemma_valid_prefix(head: Seq<u8>, whole: Seq<u8>)
    requires
        valid_utf8(head),
        valid_utf8(whole),
        head.len() <= whole.len(),
        whole.subrange(0, head.len() as int) == head,
    ensures
        is_char_boundary(whole, head.len() as int),
    decreases head.len(),
{
    if head.len() > 0 {
        assert forall|i: int| 0 <= i < head.len() implies head[i] == whole[i] by {
            assert(whole.subrange(0, head.len() as int)[i] == whole[i]);
        }
        let n = length_of_first_scalar(head);
        assert(length_of_first_scalar(whole) == n);
        let head_rest = pop_first_scalar(head);
        let whole_rest = pop_first_scalar(whole);
        assert(whole_rest.subrange(0, head_rest.len() as int) =~= head_rest);
        lemma_valid_prefix(head_rest, whole_rest);
    }
}

/// A boundary of what follows a boundary is a boundary of the whole.
proof fn lemma_char_boundary_shift(b: Seq<u8>, at: int, within: int)
    requires
        valid_utf8(b),
        is_char_boundary(b, at),
        0 <= at <= b.len(),
        valid_utf8(b.subrange(at, b.len() as int)),
        is_char_boundary(b.subrange(at, b.len() as int), within),
        0 <= within <= b.len() - at,
    ensures
        is_char_boundary(b, at + within),
{
    let rest = b.subrange(at, b.len() as int);
    is_char_boundary_start_end_of_seq(b);
    if at + within < b.len() {
        is_char_boundary_iff_not_is_continuation_byte(rest, within);
        is_char_boundary_iff_not_is_continuation_byte(b, at + within);
    }
}

/// Whether `needle` stands at an offset.
fn stands_at(hay: &[u8], needle: &[u8], at: usize) -> (r: bool)
    requires
        at + needle@.len() <= hay@.len(),
    ensures
        r == occurs(hay@, needle@, at as int),
{
    let total: usize = hay.len();
    let mut i: usize = 0;
    while i < needle.len()
        invariant
            i <= needle@.len(),
            at + needle@.len() <= hay@.len(),
            total == hay@.len(),
            forall|j: int| 0 <= j < i ==> hay@[at + j] == needle@[j],
        decreases needle@.len() - i,
    {
        if hay[at + i] != needle[i] {
            assert(hay@.subrange(at as int, at + needle@.len())[i as int] == hay@[at + i]);
            return false;
        }
        i = i + 1;
    }
    assert(hay@.subrange(at as int, at + needle@.len()) =~= needle@);
    true
}

/// Whether `text` begins with `prefix`.
pub fn starts_with(text: &str, prefix: &str) -> (r: bool)
    ensures
        r == occurs(bytes(text@), bytes(prefix@), 0),
{
    let hay = text.as_bytes();
    let needle = prefix.as_bytes();
    needle.len() <= hay.len() && stands_at(hay, needle, 0)
}

/// Whether `text` ends with `suffix`.
pub fn ends_with(text: &str, suffix: &str) -> (r: bool)
    ensures
        r == occurs(bytes(text@), bytes(suffix@), bytes(text@).len() - bytes(suffix@).len()),
{
    let hay = text.as_bytes();
    let needle = suffix.as_bytes();
    needle.len() <= hay.len() && stands_at(hay, needle, hay.len() - needle.len())
}

/// The first place at or after `from` where `needle` stands in `text`.
pub fn find_from(text: &str, needle: &str, from: usize) -> (r: Option<usize>)
    ensures
        match (r, found(bytes(text@), bytes(needle@), from as int)) {
            (Some(a), Some(b)) => a == b,
            (None, None) => true,
            _ => false,
        },
        r matches Some(at) ==> from <= at && at + bytes(needle@).len() <= bytes(text@).len(),
{
    let hay = text.as_bytes();
    let sought = needle.as_bytes();
    if sought.len() > hay.len() || from > hay.len() - sought.len() {
        return None;
    }
    let last: usize = hay.len() - sought.len();
    let mut at: usize = from;
    while at <= last
        invariant
            from <= at <= last + 1,
            last + sought@.len() == hay@.len(),
            hay@ == bytes(text@),
            sought@ == bytes(needle@),
            last < usize::MAX || sought@.len() == 0,
            found(hay@, sought@, from as int) == found(hay@, sought@, at as int),
        decreases last + 1 - at,
    {
        if stands_at(hay, sought, at) {
            return Some(at);
        }
        if at == usize::MAX {
            assert(sought@.len() == 0);
            assert(hay@.subrange(at as int, at as int) =~= sought@);
        }
        at = at + 1;
    }
    None
}

/// The first place where `needle` stands in `text`.
pub fn find(text: &str, needle: &str) -> (r: Option<usize>)
    ensures
        match (r, found(bytes(text@), bytes(needle@), 0)) {
            (Some(a), Some(b)) => a == b,
            (None, None) => true,
            _ => false,
        },
        r matches Some(at) ==> at + bytes(needle@).len() <= bytes(text@).len(),
{
    find_from(text, needle, 0)
}

/// The last place where `needle` stands in `text`.
pub fn rfind(text: &str, needle: &str) -> (r: Option<usize>)
    ensures
        match (r, rfound(bytes(text@), bytes(needle@), bytes(text@).len() - bytes(needle@).len())) {
            (Some(a), Some(b)) => a == b,
            (None, None) => true,
            _ => false,
        },
        r matches Some(at) ==> at + bytes(needle@).len() <= bytes(text@).len(),
{
    let hay = text.as_bytes();
    let sought = needle.as_bytes();
    if sought.len() > hay.len() {
        return None;
    }
    let mut at: usize = hay.len() - sought.len();
    loop
        invariant
            at + sought@.len() <= hay@.len(),
            hay@ == bytes(text@),
            sought@ == bytes(needle@),
            rfound(hay@, sought@, hay@.len() - sought@.len()) == rfound(hay@, sought@, at as int),
        decreases at,
    {
        if stands_at(hay, sought, at) {
            return Some(at);
        }
        if at == 0 {
            assert(rfound(hay@, sought@, -1) is None);
            return None;
        }
        at = at - 1;
    }
}

/// A string that may be missing, as a text.
pub open spec fn view_of(one: Option<String>) -> Option<Seq<char>> {
    match one {
        Some(one) => Some(one@),
        None => None,
    }
}

/// Whether one byte sequence comes before another in byte order.
pub open spec fn bytes_precede(a: Seq<u8>, b: Seq<u8>) -> bool
    decreases a.len(),
{
    if b.len() == 0 {
        false
    } else if a.len() == 0 {
        true
    } else if a[0] != b[0] {
        a[0] < b[0]
    } else {
        bytes_precede(a.drop_first(), b.drop_first())
    }
}

/// Whether one text comes before another in byte order.
pub open spec fn precedes(a: Seq<char>, b: Seq<char>) -> bool {
    bytes_precede(bytes(a), bytes(b))
}

/// Nothing comes before itself.
pub proof fn lemma_bytes_irreflexive(a: Seq<u8>)
    ensures
        !bytes_precede(a, a),
    decreases a.len(),
{
    if a.len() > 0 {
        lemma_bytes_irreflexive(a.drop_first());
    }
}

/// Of two different byte sequences, one comes before the other.
pub proof fn lemma_bytes_total(a: Seq<u8>, b: Seq<u8>)
    requires
        a != b,
    ensures
        bytes_precede(a, b) || bytes_precede(b, a),
    decreases a.len(),
{
    if a.len() == 0 {
        assert(b.len() > 0) by {
            if b.len() == 0 {
                assert(a =~= b);
            }
        }
    } else if b.len() > 0 && a[0] == b[0] {
        if a.drop_first() == b.drop_first() {
            assert(a =~= seq![a[0]] + a.drop_first());
            assert(b =~= seq![b[0]] + b.drop_first());
        }
        lemma_bytes_total(a.drop_first(), b.drop_first());
    }
}

pub proof fn lemma_bytes_transitive(a: Seq<u8>, b: Seq<u8>, c: Seq<u8>)
    requires
        bytes_precede(a, b),
        bytes_precede(b, c),
    ensures
        bytes_precede(a, c),
    decreases a.len(),
{
    if a.len() > 0 && a[0] == b[0] && b[0] == c[0] {
        lemma_bytes_transitive(a.drop_first(), b.drop_first(), c.drop_first());
    }
}

/// Byte order is a strict order on texts.
pub proof fn lemma_precedes(a: Seq<char>, b: Seq<char>, c: Seq<char>)
    ensures
        !precedes(a, a),
        a != b ==> precedes(a, b) || precedes(b, a),
        precedes(a, b) && precedes(b, c) ==> precedes(a, c),
        precedes(a, b) ==> !precedes(b, a),
{
    lemma_bytes_irreflexive(bytes(a));
    if a != b {
        if bytes(a) == bytes(b) {
            lemma_bytes_injective(a, b);
        }
        lemma_bytes_total(bytes(a), bytes(b));
    }
    if precedes(a, b) && precedes(b, c) {
        lemma_bytes_transitive(bytes(a), bytes(b), bytes(c));
    }
    if precedes(a, b) && precedes(b, a) {
        lemma_bytes_transitive(bytes(a), bytes(b), bytes(a));
    }
}

/// Whether `a` comes before `b` in byte order.
pub fn is_before(a: &str, b: &str) -> (r: bool)
    ensures
        r == precedes(a@, b@),
{
    let x = a.as_bytes();
    let y = b.as_bytes();
    let mut i: usize = 0;
    proof {
        assert(x@.skip(0) =~= x@);
        assert(y@.skip(0) =~= y@);
    }
    while i < x.len() && i < y.len()
        invariant
            i <= x@.len(),
            i <= y@.len(),
            x@ == bytes(a@),
            y@ == bytes(b@),
            bytes_precede(x@, y@) == bytes_precede(x@.skip(i as int), y@.skip(i as int)),
        decreases x@.len() - i,
    {
        proof {
            assert(x@.skip(i as int)[0] == x@[i as int]);
            assert(y@.skip(i as int)[0] == y@[i as int]);
            assert(x@.skip(i as int).drop_first() =~= x@.skip(i + 1));
            assert(y@.skip(i as int).drop_first() =~= y@.skip(i + 1));
        }
        if x[i] != y[i] {
            return x[i] < y[i];
        }
        i = i + 1;
    }
    i < y.len()
}

/// What is counted at the front of a text can all be taken off.
pub proof fn lemma_leading_all(text: Seq<char>, edge: Edge)
    ensures
        0 <= leading(text, edge) <= text.len(),
        forall|i: int| 0 <= i < leading(text, edge) ==> edge.takes(#[trigger] text[i]),
        leading(text, edge) < text.len() ==> !edge.takes(text[leading(text, edge)]),
    decreases text.len(),
{
    if text.len() > 0 && edge.takes(text[0]) {
        let rest = text.drop_first();
        lemma_leading_all(rest, edge);
        assert forall|i: int| 0 <= i < leading(text, edge) implies edge.takes(#[trigger] text[i]) by {
            if i > 0 {
                assert(rest[i - 1] == text[i]);
            }
        }
    }
}

/// And what is counted at its end.
pub proof fn lemma_trailing_all(text: Seq<char>, edge: Edge)
    ensures
        0 <= trailing(text, edge) <= text.len(),
        forall|i: int|
            text.len() - trailing(text, edge) <= i < text.len() ==> edge.takes(#[trigger] text[i]),
        trailing(text, edge) < text.len() ==> !edge.takes(
            text[text.len() - trailing(text, edge) - 1],
        ),
    decreases text.len(),
{
    if text.len() > 0 && edge.takes(text.last()) {
        let rest = text.drop_last();
        lemma_trailing_all(rest, edge);
        assert forall|i: int|
            text.len() - trailing(text, edge) <= i < text.len() implies edge.takes(
            #[trigger] text[i],
        ) by {
            if i < rest.len() {
                assert(rest[i] == text[i]);
            }
        }
    }
}

/// Trimming takes off all that can be taken off either end, and nothing else: what
/// is left stands in the text as it was, only what can be taken off stands around
/// it, and nothing more can be.
pub proof fn law_trimming_takes_the_ends_and_no_more(text: Seq<char>, edge: Edge)
    ensures
        ({
            let core = trimmed(text, edge);
            let from = if core.len() == 0 {
                text.len() as int
            } else {
                leading(text, edge)
            };
            &&& 0 <= from <= from + core.len() <= text.len()
            &&& text.subrange(from, from + core.len()) == core
            &&& forall|i: int|
                0 <= i < from || from + core.len() <= i < text.len() ==> edge.takes(
                    #[trigger] text[i],
                )
            &&& core.len() > 0 ==> !edge.takes(core[0]) && !edge.takes(core.last())
        }),
{
    lemma_leading_all(text, edge);
    lemma_trailing_all(text, edge);
    lemma_trimmed_ends(text, edge);
    let n = leading(text, edge);
    if n < text.len() {
        assert(n < text.len() - trailing(text, edge));
        assert(text.subrange(n, n + trimmed(text, edge).len()) =~= trimmed(text, edge));
    } else {
        assert(text.subrange(n, n) =~= trimmed(text, edge));
    }
}

} // verus!
