//! Byte offsets ↔ LSP positions.
//!
//! LSP counts characters in UTF-16 code units and Rust counts bytes, so every
//! position crossing the protocol boundary passes through here. luau-lsp
//! negotiates `utf-16` too, so the same conversion serves both directions of the
//! proxy.

use vstd::prelude::*;
use vstd::string::*;
use vstd::utf8::*;

use crate::text::{self, byte_count, length, slice};

verus! {

/// How many line feeds stand in the first `n` bytes: the zero-based line that
/// offset `n` is on.
pub open spec fn newlines(b: Seq<u8>, n: int) -> int
    decreases n,
{
    if n <= 0 {
        0
    } else if b[n - 1] == 10 {
        newlines(b, n - 1) + 1
    } else {
        newlines(b, n - 1)
    }
}

/// Where each line begins that begins within the first `n` bytes.
pub open spec fn starts_within(b: Seq<u8>, n: int) -> Seq<int>
    decreases n,
{
    if n <= 0 {
        seq![0]
    } else if b[n - 1] == 10 {
        starts_within(b, n - 1).push(n)
    } else {
        starts_within(b, n - 1)
    }
}

/// Where each line of a text begins.
pub open spec fn line_starts(text: Seq<char>) -> Seq<int> {
    starts_within(text::bytes(text), text::bytes(text).len() as int)
}

/// The line that an offset is on; past the end, the last line.
pub open spec fn line_holding(text: Seq<char>, offset: int) -> int {
    let n = text::bytes(text).len() as int;
    newlines(
        text::bytes(text),
        if offset <= n {
            offset
        } else {
            n
        },
    )
}

/// Where `line` begins, or the end of the text if it is past the last line.
pub open spec fn line_begin(text: Seq<char>, line: int) -> int {
    if 0 <= line < line_starts(text).len() {
        line_starts(text)[line]
    } else {
        text::bytes(text).len() as int
    }
}

/// Where `line` ends, before its `\n` or `\r\n`.
pub open spec fn line_finish(text: Seq<char>, line: int) -> int {
    let end = if 0 <= line < line_starts(text).len() - 1 {
        line_starts(text)[line + 1] - 1
    } else {
        text::bytes(text).len() as int
    };
    if line_begin(text, line) < end && text::bytes(text)[end - 1] == 13 {
        end - 1
    } else {
        end
    }
}

/// How many UTF-16 code units a character takes.
pub open spec fn units(c: char) -> int {
    if (c as u32) < 0x10000 {
        1
    } else {
        2
    }
}

/// How many UTF-16 code units a text takes.
pub open spec fn utf16_length(chars: Seq<char>) -> int
    decreases chars.len(),
{
    if chars.len() == 0 {
        0
    } else {
        utf16_length(chars.drop_last()) + units(chars.last())
    }
}

/// How many bytes the shortest prefix takes that has `count` code units or
/// more; all of them, if none has.
pub open spec fn bytes_for_units(chars: Seq<char>, count: int) -> int
    decreases chars.len(),
{
    if chars.len() == 0 || count <= 0 {
        0
    } else {
        encode_scalar(chars[0] as u32).len() + bytes_for_units(
            chars.drop_first(),
            count - units(chars[0]),
        )
    }
}

/// The greatest character boundary at or before `offset`, clamped to the text.
pub open spec fn floor_of(text: Seq<char>, offset: int) -> int
    decreases offset,
{
    if offset >= text::bytes(text).len() {
        text::bytes(text).len() as int
    } else if offset <= 0 {
        0
    } else if text::boundary(text, offset) {
        offset
    } else {
        floor_of(text, offset - 1)
    }
}

/// The least character boundary at or after `offset`, clamped to the text.
pub open spec fn ceil_of(text: Seq<char>, offset: int) -> int
    decreases text::bytes(text).len() - offset,
{
    if offset >= text::bytes(text).len() {
        text::bytes(text).len() as int
    } else if text::boundary(text, offset) {
        offset
    } else {
        ceil_of(text, offset + 1)
    }
}

/// A zero-based LSP position.
#[derive(Debug, Clone, Copy, PartialEq, Eq, PartialOrd, Ord, Structural)]
pub struct Position {
    pub line: u32,
    /// UTF-16 code units from the start of the line.
    pub character: u32,
}

impl Position {
    pub fn new(line: u32, character: u32) -> (r: Self)
        ensures
            r == (Position { line, character }),
    {
        Self { line, character }
    }
}

/// The position of an offset. One past the end is at the end, and one inside a
/// character is where that character begins.
pub open spec fn position_of(text: Seq<char>, offset: int) -> Position {
    let at = floor_of(text, offset);
    let line = newlines(text::bytes(text), at);
    Position {
        line: line as u32,
        character: utf16_length(text::cut(text, line_begin(text, line), at)) as u32,
    }
}

/// Whether a position can say an offset exactly: it is where a character begins
/// or the end, it is not inside a line's terminator, and its numbers fit.
pub open spec fn addressable(text: Seq<char>, offset: int) -> bool {
    let line = newlines(text::bytes(text), offset);
    &&& text::boundary(text, offset)
    &&& offset <= line_finish(text, line)
    &&& line <= u32::MAX
    &&& utf16_length(text::cut(text, line_begin(text, line), offset)) <= u32::MAX
}

/// The offset of a position. There is none on a line past the last, and a
/// character past the end of its line is at that end.
pub open spec fn offset_of(text: Seq<char>, position: Position) -> Option<int> {
    let line = position.line as int;
    if line >= line_starts(text).len() {
        None
    } else {
        let begin = line_begin(text, line);
        Some(
            begin + bytes_for_units(
                text::cut(text, begin, line_finish(text, line)),
                position.character as int,
            ),
        )
    }
}

/// Line starts, for one revision of one document.
#[derive(Debug, Clone)]
pub struct LineIndex {
    /// Byte offset of the start of each line. Always begins with 0.
    starts: Vec<usize>,
    length: usize,
}

impl LineIndex {
    /// Where each line begins.
    pub closed spec fn starts(self) -> Seq<int> {
        self.starts@.map_values(|start: usize| start as int)
    }

    /// How long the text is.
    pub closed spec fn size(self) -> int {
        self.length as int
    }

    /// What every index keeps: a first line at 0, and each next one further on.
    pub open spec fn wf(self) -> bool {
        &&& self.starts().len() > 0
        &&& self.starts()[0] == 0
        &&& forall|i: int, j: int|
            #![trigger self.starts()[i], self.starts()[j]]
            0 <= i < j < self.starts().len() ==> self.starts()[i] < self.starts()[j]
        &&& forall|i: int| 0 <= i < self.starts().len() ==> self.starts()[i] <= self.size()
    }

    /// Whether this is the index of `text`.
    pub open spec fn of(self, text: Seq<char>) -> bool {
        &&& self.starts() == line_starts(text)
        &&& self.size() == text::bytes(text).len()
    }

    pub fn new(text: &str) -> (r: Self)
        ensures
            r.of(text@),
            r.wf(),
    {
        let b = text.as_bytes();
        let mut starts: Vec<usize> = Vec::new();
        starts.push(0);
        let mut i: usize = 0;
        while i < b.len()
            invariant
                i <= b.len(),
                b@ == text::bytes(text@),
                starts@.map_values(|start: usize| start as int) =~= starts_within(b@, i as int),
            decreases b.len() - i,
        {
            if b[i] == 10 {
                starts.push(i + 1);
            }
            i = i + 1;
        }
        let r = LineIndex { starts, length: b.len() };
        proof {
            lemma_index_wf(r, text@);
        }
        r
    }

    pub fn line_count(&self) -> (r: usize)
        ensures
            r == self.starts().len(),
    {
        self.starts.len()
    }

    /// Byte offset where `line` starts, or the end of the file if it is past the
    /// last line.
    pub fn line_start(&self, line: usize) -> (r: usize)
        ensures
            r == if line < self.starts().len() {
                self.starts()[line as int]
            } else {
                self.size()
            },
    {
        if line < self.starts.len() {
            self.starts[line]
        } else {
            self.length
        }
    }

    /// Byte range of `line`, excluding its terminator.
    pub fn line_range(&self, text: &str, line: usize) -> (r: (usize, usize))
        requires
            self.of(text@),
        ensures
            r.0 == line_begin(text@, line as int),
            r.1 == line_finish(text@, line as int),
            text::cuttable(text@, r.0 as int, r.1 as int),
    {
        proof {
            lemma_line_edges(text@, line as int);
            lemma_starts(text::bytes(text@), text::bytes(text@).len() as int);
        }
        let b = text.as_bytes();
        let start: usize = self.line_start(line);
        let end: usize = if line < self.starts.len() && line + 1 < self.starts.len() {
            assert(self.starts()[line + 1] == self.starts@[line + 1]);
            self.starts[line + 1] - 1
        } else {
            self.length
        };
        // A `\r\n` terminator leaves the `\r` behind.
        if start < end && b[end - 1] == 13 {
            (start, end - 1)
        } else {
            (start, end)
        }
    }

    /// Zero-based line containing `offset`.
    pub fn line_of(&self, offset: usize) -> (r: usize)
        requires
            self.wf(),
        ensures
            r < self.starts().len(),
            self.starts()[r as int] <= offset,
            r + 1 < self.starts().len() ==> offset < self.starts()[r + 1],
            forall|text: Seq<char>|
                #![trigger self.of(text)]
                self.of(text) ==> r == line_holding(text, offset as int),
    {
        let mut low: usize = 0;
        let mut high: usize = self.starts.len();
        assert(self.starts()[0] == 0);
        while high - low > 1
            invariant
                self.wf(),
                low < high <= self.starts().len(),
                self.starts()[low as int] <= offset,
                high < self.starts().len() ==> offset < self.starts()[high as int],
            decreases high - low,
        {
            let middle: usize = low + (high - low) / 2;
            assert(self.starts()[middle as int] == self.starts@[middle as int]);
            if self.starts[middle] <= offset {
                low = middle;
            } else {
                high = middle;
            }
        }
        proof {
            assert forall|text: Seq<char>|
                #![trigger self.of(text)]
                self.of(text) implies low == line_holding(text, offset as int) by {
                assert(self.starts()[low as int] <= self.size());
                lemma_line_of(
                    text,
                    if offset <= text::bytes(text).len() {
                        offset as int
                    } else {
                        text::bytes(text).len() as int
                    },
                    low as int,
                );
            }
        }
        low
    }

    /// Byte offset → position.
    ///
    /// Total, deliberately. Offsets past the end clamp to the end, and one that
    /// lands *inside* a character snaps to its start. Both are what a caller
    /// asking about a stale revision, or about a length it computed in bytes,
    /// should get — and a language server that panics on a position takes every
    /// feature down with it over one non-breaking space.
    pub fn position(&self, text: &str, offset: usize) -> (r: Position)
        requires
            self.of(text@),
        ensures
            r == position_of(text@, offset as int),
    {
        proof {
            lemma_index_wf(*self, text@);
        }
        let offset: usize = floor_boundary(text, offset);
        let line: usize = self.line_of(offset);
        let start: usize = self.line_start(line);
        proof {
            lemma_floor_fixed(text@, offset as int);
            lemma_line_edges(text@, line as int);
        }
        let character: usize = utf16_count(slice(text, start, offset));
        Position::new(line as u32, character as u32)
    }

    /// Position → byte offset.
    ///
    /// Returns `None` for a line past the end of the document. A character past
    /// the end of its line clamps to the line's end, because editors legitimately
    /// send `character: u32::MAX` to mean "end of line".
    pub fn offset(&self, text: &str, position: Position) -> (r: Option<usize>)
        requires
            self.of(text@),
        ensures
            match (r, offset_of(text@, position)) {
                (Some(a), Some(b)) => a == b && text::boundary(text@, a as int),
                (None, None) => true,
                _ => false,
            },
    {
        let line: usize = position.line as usize;
        if line >= self.starts.len() {
            return None;
        }
        let (start, end) = self.line_range(text, line);
        let within: usize = prefix_for_units(slice(text, start, end), position.character as usize);
        proof {
            text::lemma_boundary_inside(text@, start as int, end as int, within as int);
        }
        Some(start + within)
    }
}

/// How many UTF-16 code units `text` takes.
pub fn utf16_count(text: &str) -> (r: usize)
    ensures
        r == utf16_length(text@),
{
    let n: usize = length(text);
    let mut count: usize = 0;
    for c in it: text.chars()
        invariant
            it.seq() == text@,
            count == utf16_length(text@.take(it.index())),
            n == text::bytes(text@).len(),
    {
        proof {
            let taken = text@.take(it.index());
            let more = text@.take(it.index() + 1);
            assert(more.drop_last() =~= taken);
            assert(more.last() == c);
            lemma_units_fit(more);
            text::lemma_prefix_bytes(text@, it.index() + 1);
        }
        count = count + unit_count(c);
    }
    assert(text@.take(text@.len() as int) =~= text@);
    count
}

/// How many UTF-16 code units one character takes.
pub fn unit_count(c: char) -> (r: usize)
    ensures
        r == units(c),
{
    if (c as u32) < 0x10000 {
        1
    } else {
        2
    }
}

/// How many bytes of `text` come before its `count`th code unit.
fn prefix_for_units(text: &str, count: usize) -> (r: usize)
    ensures
        r == bytes_for_units(text@, count as int),
        0 <= r <= text::bytes(text@).len(),
        text::boundary(text@, r as int),
{
    let n: usize = length(text);
    let mut seen: usize = 0;
    let mut index: usize = 0;
    assert(text@.skip(0) =~= text@);
    for c in it: text.chars()
        invariant
            it.seq() == text@,
            n == text::bytes(text@).len(),
            seen == utf16_length(text@.take(it.index())),
            index == text::bytes(text@.take(it.index())).len(),
            index <= n,
            bytes_for_units(text@, count as int) == index + bytes_for_units(
                text@.skip(it.index()),
                count - seen,
            ),
    {
        proof {
            text::lemma_prefix_boundary_at(text@, it.index());
        }
        if seen >= count {
            return index;
        }
        proof {
            let taken = text@.take(it.index());
            let more = text@.take(it.index() + 1);
            assert(more.drop_last() =~= taken);
            assert(more.last() == c);
            lemma_units_fit(more);
            text::lemma_prefix_bytes(text@, it.index() + 1);
            text::lemma_bytes_push(taken, c);
            assert(more =~= taken.push(c));
            assert(text@.skip(it.index())[0] == c);
            assert(text@.skip(it.index()).drop_first() =~= text@.skip(it.index() + 1));
        }
        seen = seen + unit_count(c);
        index = index + byte_count(c);
    }
    proof {
        assert(text@.take(text@.len() as int) =~= text@);
        assert(text@.skip(text@.len() as int) =~= Seq::<char>::empty());
        text::lemma_boundary_ends(text@);
    }
    index
}

/// The greatest character boundary at or before `offset`, clamped to the text.
pub fn floor_boundary(text: &str, offset: usize) -> (r: usize)
    ensures
        r == floor_of(text@, offset as int),
        text::boundary(text@, r as int),
        r <= text::bytes(text@).len(),
        r <= offset,
{
    let n: usize = length(text);
    let mut at: usize = if offset < n {
        offset
    } else {
        n
    };
    proof {
        text::lemma_boundary_ends(text@);
    }
    while !text.is_char_boundary(at)
        invariant
            at <= n,
            at <= offset,
            n == text::bytes(text@).len(),
            text::boundary(text@, 0),
            text::boundary(text@, n as int),
            floor_of(text@, at as int) == floor_of(text@, offset as int),
        decreases at,
    {
        at = at - 1;
    }
    at
}

/// The least character boundary at or after `offset`, clamped to the text.
///
/// What "one character wide" means when a length was computed in bytes — a
/// diagnostic pointing at `\u{a0}` is two bytes, not one.
pub fn ceil_boundary(text: &str, offset: usize) -> (r: usize)
    ensures
        r == ceil_of(text@, offset as int),
        text::boundary(text@, r as int),
        r <= text::bytes(text@).len(),
        offset <= text::bytes(text@).len() ==> offset <= r,
{
    let n: usize = length(text);
    let mut at: usize = if offset < n {
        offset
    } else {
        n
    };
    proof {
        text::lemma_boundary_ends(text@);
    }
    while !text.is_char_boundary(at)
        invariant
            at <= n,
            n == text::bytes(text@).len(),
            offset <= n ==> offset <= at,
            text::boundary(text@, n as int),
            ceil_of(text@, at as int) == ceil_of(text@, offset as int),
        decreases n - at,
    {
        at = at + 1;
    }
    at
}

/// What the line starts of a text are like.
pub proof fn lemma_starts(b: Seq<u8>, n: int)
    requires
        0 <= n <= b.len(),
    ensures
        starts_within(b, n).len() == newlines(b, n) + 1,
        newlines(b, n) >= 0,
        starts_within(b, n)[0] == 0,
        forall|i: int|
            #![trigger starts_within(b, n)[i]]
            0 <= i < starts_within(b, n).len() ==> {
                &&& 0 <= starts_within(b, n)[i] <= n
                &&& newlines(b, starts_within(b, n)[i]) == i
                &&& i > 0 ==> starts_within(b, n)[i] > 0 && b[starts_within(b, n)[i] - 1] == 10
            },
        forall|i: int, j: int|
            #![trigger starts_within(b, n)[i], starts_within(b, n)[j]]
            0 <= i < j < starts_within(b, n).len() ==> starts_within(b, n)[i] < starts_within(
                b,
                n,
            )[j],
    decreases n,
{
    if n > 0 {
        lemma_starts(b, n - 1);
    }
}

proof fn lemma_newlines_monotone(b: Seq<u8>, m: int, n: int)
    requires
        0 <= m <= n <= b.len(),
    ensures
        newlines(b, m) <= newlines(b, n),
    decreases n,
{
    if m < n {
        lemma_newlines_monotone(b, m, n - 1);
    }
}

/// Past the start of a line and not past the start of the next, an offset is on
/// that line.
proof fn lemma_line_of(text: Seq<char>, offset: int, line: int)
    requires
        0 <= offset <= text::bytes(text).len(),
        0 <= line < line_starts(text).len(),
        line_starts(text)[line] <= offset,
        line + 1 < line_starts(text).len() ==> offset < line_starts(text)[line + 1],
    ensures
        newlines(text::bytes(text), offset) == line,
{
    let b = text::bytes(text);
    let n = b.len() as int;
    lemma_starts(b, n);
    lemma_newlines_monotone(b, line_starts(text)[line], offset);
    if line + 1 < line_starts(text).len() {
        let next = line_starts(text)[line + 1];
        lemma_newlines_monotone(b, offset, next - 1);
    } else {
        lemma_newlines_monotone(b, offset, n);
    }
}

/// The converse: the line an offset is on starts no later than it, and the next
/// one after it.
pub proof fn lemma_line_holds(text: Seq<char>, offset: int)
    requires
        0 <= offset <= text::bytes(text).len(),
    ensures
        ({
            let line = newlines(text::bytes(text), offset);
            &&& 0 <= line < line_starts(text).len()
            &&& line_starts(text)[line] <= offset
            &&& line + 1 < line_starts(text).len() ==> offset < line_starts(text)[line + 1]
        }),
{
    let b = text::bytes(text);
    let n = b.len() as int;
    let line = newlines(b, offset);
    lemma_starts(b, n);
    lemma_starts(b, offset);
    lemma_newlines_monotone(b, offset, n);
    let start = line_starts(text)[line];
    if offset < start {
        lemma_newlines_monotone(b, offset, start - 1);
    }
    if line + 1 < line_starts(text).len() {
        let next = line_starts(text)[line + 1];
        if next <= offset {
            lemma_newlines_monotone(b, next, offset);
        }
    }
}

proof fn lemma_index_wf(index: LineIndex, text: Seq<char>)
    requires
        index.of(text),
    ensures
        index.wf(),
{
    lemma_starts(text::bytes(text), text::bytes(text).len() as int);
}

/// An offset can be said exactly unless it stands between the two characters of
/// a line's terminator, or past a lone carriage return that ends the text.
pub proof fn lemma_addressable(text: Seq<char>, offset: int)
    requires
        text::boundary(text, offset),
        text::bytes(text).len() <= u32::MAX,
        ({
            ||| offset == 0
            ||| offset < text::bytes(text).len() && text::bytes(text)[offset] != 10
            ||| text::bytes(text)[offset - 1] != 13
        }),
    ensures
        addressable(text, offset),
{
    let b = text::bytes(text);
    let line = newlines(b, offset);
    text::lemma_boundary_range(text, offset);
    lemma_line_holds(text, offset);
    lemma_line_edges(text, line);
    lemma_starts(b, b.len() as int);
    lemma_newlines_fit(b, offset);
    let begin = line_begin(text, line);
    text::lemma_cut(text, begin, offset);
    lemma_units_fit(text::cut(text, begin, offset));
}

/// The start of a text can always be said.
pub proof fn lemma_nothing(text: Seq<char>)
    ensures
        addressable(text, 0),
{
    text::lemma_boundary_ends(text);
    lemma_line_holds(text, 0);
    lemma_line_edges(text, 0);
    lemma_starts(text::bytes(text), text::bytes(text).len() as int);
    text::lemma_cut(text, 0, 0);
    lemma_units_fit(text::cut(text, 0, 0));
}

/// No offset is on a line past its own count.
pub proof fn lemma_line_fits(text: Seq<char>, offset: int)
    requires
        0 <= offset <= text::bytes(text).len(),
    ensures
        0 <= newlines(text::bytes(text), offset) <= offset,
{
    lemma_newlines_fit(text::bytes(text), offset);
}

/// Offsets with no line feed between them are on one line.
pub proof fn lemma_one_line(b: Seq<u8>, m: int, n: int)
    requires
        0 <= m <= n <= b.len(),
        forall|p: int| m <= p < n ==> #[trigger] b[p] != 10,
    ensures
        newlines(b, m) == newlines(b, n),
    decreases n,
{
    if m < n {
        lemma_one_line(b, m, n - 1);
    }
}

/// The edges of a line are boundaries, in order.
pub proof fn lemma_line_edges(text: Seq<char>, line: int)
    requires
        0 <= line,
    ensures
        text::cuttable(text, line_begin(text, line), line_finish(text, line)),
{
    let b = text::bytes(text);
    let n = b.len() as int;
    lemma_starts(b, n);
    text::lemma_boundary_ends(text);
    let begin = line_begin(text, line);
    if 0 < begin < n {
        text::lemma_ascii_boundaries(text, begin - 1);
    }
    let end = if line < line_starts(text).len() - 1 {
        line_starts(text)[line + 1] - 1
    } else {
        n
    };
    if line < line_starts(text).len() - 1 {
        assert(b[end] == 10);
        text::lemma_ascii_boundaries(text, end);
    }
    if begin < end && b[end - 1] == 13 {
        text::lemma_ascii_boundaries(text, end - 1);
    }
}

/// A boundary within the text is its own floor.
pub proof fn lemma_floor_fixed(text: Seq<char>, offset: int)
    requires
        text::boundary(text, offset),
        0 <= offset <= text::bytes(text).len(),
    ensures
        floor_of(text, offset) == offset,
        ceil_of(text, offset) == offset,
{
}

proof fn lemma_units_fit(chars: Seq<char>)
    ensures
        0 <= utf16_length(chars) <= text::bytes(chars).len(),
    decreases chars.len(),
{
    if chars.len() > 0 {
        lemma_units_fit(chars.drop_last());
        text::lemma_bytes_push(chars.drop_last(), chars.last());
        assert(chars.drop_last().push(chars.last()) =~= chars);
    }
}

proof fn lemma_units_of_prefix(head: Seq<char>, tail: Seq<char>)
    ensures
        bytes_for_units(head + tail, utf16_length(head)) == text::bytes(head).len(),
    decreases head.len(),
{
    lemma_units_fit(head);
    if head.len() == 0 {
        assert(head + tail =~= tail);
    } else {
        lemma_units_first(head);
        lemma_units_fit(head.drop_first());
        assert((head + tail).drop_first() =~= head.drop_first() + tail);
        lemma_units_of_prefix(head.drop_first(), tail);
    }
}

proof fn lemma_units_first(chars: Seq<char>)
    requires
        chars.len() > 0,
    ensures
        utf16_length(chars) == units(chars[0]) + utf16_length(chars.drop_first()),
    decreases chars.len(),
{
    if chars.len() == 1 {
        assert(chars.drop_first() =~= Seq::<char>::empty());
        assert(chars.drop_last() =~= Seq::<char>::empty());
    } else {
        lemma_units_first(chars.drop_last());
        assert(chars.drop_last().drop_first() =~= chars.drop_first().drop_last());
    }
}

/// Every offset outside a line terminator goes to a position and comes back
/// where it was, as long as the position's numbers fit.
pub proof fn law_positions_round_trip(text: Seq<char>, offset: int)
    requires
        addressable(text, offset),
    ensures
        offset_of(text, position_of(text, offset)) == Some(offset),
{
    text::lemma_boundary_range(text, offset);
    lemma_floor_fixed(text, offset);
    lemma_line_holds(text, offset);
    let line = newlines(text::bytes(text), offset);
    lemma_line_edges(text, line);
    let begin = line_begin(text, line);
    let finish = line_finish(text, line);
    let head = text::cut(text, begin, offset);
    let tail = text::cut(text, offset, finish);
    text::lemma_cut(text, begin, offset);
    text::lemma_cut(text, offset, finish);
    text::lemma_cut(text, begin, finish);
    text::lemma_bytes_concat(head, tail);
    assert(text::bytes(head + tail) =~= text::bytes(text::cut(text, begin, finish)));
    text::lemma_bytes_injective(head + tail, text::cut(text, begin, finish));
    lemma_units_of_prefix(head, tail);
    lemma_units_fit(head);
}

/// Rounding goes outwards, to the nearest boundary on either side, and leaves a
/// boundary where it is.
pub proof fn law_boundaries_round_outwards(text: Seq<char>, offset: int)
    requires
        0 <= offset <= text::bytes(text).len(),
    ensures
        floor_of(text, offset) <= offset <= ceil_of(text, offset) <= text::bytes(text).len(),
        text::boundary(text, floor_of(text, offset)),
        text::boundary(text, ceil_of(text, offset)),
        forall|at: int|
            #![trigger text::boundary(text, at)]
            floor_of(text, offset) < at < ceil_of(text, offset) && at != offset ==> !text::boundary(
                text,
                at,
            ),
        text::boundary(text, offset) ==> floor_of(text, offset) == offset && ceil_of(text, offset)
            == offset,
{
    text::lemma_boundary_ends(text);
    lemma_floor(text, offset);
    lemma_ceil(text, offset);
}

proof fn lemma_floor(text: Seq<char>, offset: int)
    requires
        0 <= offset <= text::bytes(text).len(),
    ensures
        0 <= floor_of(text, offset) <= offset,
        text::boundary(text, floor_of(text, offset)),
        forall|at: int|
            #![trigger text::boundary(text, at)]
            floor_of(text, offset) < at <= offset ==> !text::boundary(text, at),
    decreases offset,
{
    text::lemma_boundary_ends(text);
    if 0 < offset < text::bytes(text).len() && !text::boundary(text, offset) {
        lemma_floor(text, offset - 1);
    }
}

proof fn lemma_ceil(text: Seq<char>, offset: int)
    requires
        0 <= offset <= text::bytes(text).len(),
    ensures
        offset <= ceil_of(text, offset) <= text::bytes(text).len(),
        text::boundary(text, ceil_of(text, offset)),
        forall|at: int|
            #![trigger text::boundary(text, at)]
            offset <= at < ceil_of(text, offset) ==> !text::boundary(text, at),
    decreases text::bytes(text).len() - offset,
{
    text::lemma_boundary_ends(text);
    if offset < text::bytes(text).len() && !text::boundary(text, offset) {
        lemma_ceil(text, offset + 1);
    }
}

/// Positions keep the order of offsets: a later one is on a later line, or on
/// the same one and no further left.
pub proof fn law_positions_keep_order(text: Seq<char>, a: int, b: int)
    requires
        0 <= a <= b,
        text::bytes(text).len() <= u32::MAX,
    ensures
        ({
            let first = position_of(text, a);
            let second = position_of(text, b);
            first.line < second.line || first.line == second.line && first.character
                <= second.character
        }),
{
    let bytes = text::bytes(text);
    let n = bytes.len() as int;
    let x = floor_of(text, a);
    let y = floor_of(text, b);
    text::lemma_boundary_ends(text);
    if a <= n {
        lemma_floor(text, a);
    }
    if b <= n {
        lemma_floor(text, b);
    }
    assert(0 <= x <= y <= n);
    lemma_newlines_monotone(bytes, x, y);
    lemma_newlines_fit(bytes, y);
    lemma_newlines_fit(bytes, x);
    lemma_line_holds(text, x);
    lemma_line_holds(text, y);
    let line = newlines(bytes, x);
    let begin = line_begin(text, line);
    let other = line_begin(text, newlines(bytes, y));
    lemma_line_edges(text, line);
    lemma_line_edges(text, newlines(bytes, y));
    text::lemma_cut(text, begin, x);
    lemma_units_fit(text::cut(text, begin, x));
    text::lemma_cut(text, other, y);
    lemma_units_fit(text::cut(text, other, y));
    if line == newlines(bytes, y) {
        let head = text::cut(text, begin, x);
        let tail = text::cut(text, x, y);
        text::lemma_cut(text, x, y);
        text::lemma_bytes_concat(head, tail);
        assert(bytes.subrange(begin, x) + bytes.subrange(x, y) =~= bytes.subrange(begin, y));
        text::lemma_bytes_injective(text::cut(text, begin, y), head + tail);
        lemma_units_concat(head, tail);
    }
}

proof fn lemma_newlines_fit(b: Seq<u8>, n: int)
    requires
        0 <= n <= b.len(),
    ensures
        0 <= newlines(b, n) <= n,
    decreases n,
{
    if n > 0 {
        lemma_newlines_fit(b, n - 1);
    }
}

proof fn lemma_units_concat(head: Seq<char>, tail: Seq<char>)
    ensures
        utf16_length(head) <= utf16_length(head + tail),
    decreases tail.len(),
{
    if tail.len() == 0 {
        assert(head + tail =~= head);
    } else {
        lemma_units_concat(head, tail.drop_last());
        assert((head + tail).drop_last() =~= head + tail.drop_last());
    }
}

} // verus!
