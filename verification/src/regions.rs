//! Locating the LuauX regions in a `.luaux` file.
//!
//! Does what the compiler does internally: drive the lexer until the scanner
//! says a `<` opens LuauX, hand off to the LuauX parser, then resume past the
//! region. The compiler keeps its version private, so this one exists — but it
//! uses the same public lexer, scanner and parser, so the two agree by
//! construction rather than by coincidence.

use vstd::prelude::*;
use vstd::string::*;

use luaux::markup_scan::Scanner;

use crate::syntax::{self, find_stuck, read_node, Markup};
use crate::text::{self, find_from, length, slice, trim_span, Edge};

verus! {

#[derive(Debug, Clone, Copy, PartialEq, Eq, Structural)]
pub enum TokenKind {
    /// Identifier or keyword.
    Name,
    Number,
    Str,
    InterpStr,
    Symbol,
    Comment,
    Whitespace,
}

#[derive(Debug, Clone, Copy, PartialEq, Eq, Structural)]
pub struct Token {
    pub kind: TokenKind,
    pub start: usize,
    pub end: usize,
}

impl Token {
    /// Whitespace and comments carry no meaning.
    pub open spec fn trivia(self) -> bool {
        self.kind is Whitespace || self.kind is Comment
    }

    pub fn is_trivia(&self) -> (r: bool)
        ensures
            r == self.trivia(),
    {
        matches!(self.kind, TokenKind::Whitespace | TokenKind::Comment)
    }
}

/// What the lexer finds at an offset.
#[derive(Debug, Clone, Copy, PartialEq, Eq, Structural)]
pub enum Lexed {
    Token(Token),
    /// Something that does not lex.
    Error,
    /// The end of the text.
    End,
}

/// What the Luau lexer makes of the text that begins at an offset.
pub uninterp spec fn lexed(source: Seq<char>, at: int) -> Lexed;

/// [`luaux::lexer::Lexer::next_token`] of a lexer placed at an offset.
///
/// The result depends on the text and the offset alone, and is named. Of a
/// token, this claims that it begins at the offset, is not empty, and ends at a
/// boundary within the text; and that the end is reported exactly at the end.
#[verifier::external_body]
fn next_token(source: &str, at: usize) -> (r: Lexed)
    requires
        text::boundary(source@, at as int),
    ensures
        r == lexed(source@, at as int),
        r is End <==> at >= text::bytes(source@).len(),
        r matches Lexed::Token(token) ==> {
            &&& token.start == at
            &&& at < token.end <= text::bytes(source@).len()
            &&& text::boundary(source@, token.end as int)
        },
{
    match luaux::lexer::Lexer::at(source, at).next_token() {
        None => Lexed::End,
        Some(Err(_)) => Lexed::Error,
        Some(Ok(token)) => Lexed::Token(Token { start: token.start, end: token.end,
            kind: match token.kind {
                luaux::lexer::TokenKind::Name => TokenKind::Name,
                luaux::lexer::TokenKind::Number => TokenKind::Number,
                luaux::lexer::TokenKind::Str => TokenKind::Str,
                luaux::lexer::TokenKind::InterpStr => TokenKind::InterpStr,
                luaux::lexer::TokenKind::Symbol => TokenKind::Symbol,
                luaux::lexer::TokenKind::Comment => TokenKind::Comment,
                luaux::lexer::TokenKind::Whitespace => TokenKind::Whitespace,
            } }),
    }
}

/// One thing a scanner was told.
#[derive(Debug, Clone, Copy, PartialEq, Eq, Structural)]
pub enum Told {
    Token(Token),
    /// That a LuauX region was parsed and consumed.
    Region,
}

/// Whether a `<` that comes after what a scanner was told opens LuauX.
pub uninterp spec fn opens(source: Seq<char>, told: Seq<Told>, token: Token) -> bool;

/// Whether a token comes after every other that a scanner was told of.
pub open spec fn comes_after(token: Token, told: Seq<Told>) -> bool {
    forall|i: int|
        #![trigger told[i]]
        0 <= i < told.len() ==> (told[i] matches Told::Token(other) ==> other.end <= token.start)
}

/// What a scanner has been told so far, in order.
pub uninterp spec fn told(scanner: Scanner) -> Seq<Told>;

/// The text that a scanner was made for.
pub uninterp spec fn scanned(scanner: Scanner) -> Seq<char>;

/// The compiler's own detector of LuauX, which collects what it is told and
/// answers from that.
#[verifier::external_type_specification]
#[verifier::external_body]
pub struct ExScanner<'a>(luaux::markup_scan::Scanner<'a>);

/// [`luaux::markup_scan::Scanner::new`]: a scanner that has been told nothing.
#[verifier::external_body]
fn new_scanner(source: &str) -> (r: Scanner<'_>)
    ensures
        scanned(r) == source@,
        told(r) == Seq::<Told>::empty(),
{
    Scanner::new(source)
}

/// [`luaux::markup_scan::Scanner::feed`], with the lexer it wants placed just
/// past the token.
///
/// The scanner's state is what it was told and the text, so the answer is a
/// function of those two and the token, and is named. It is true only of a `<`.
/// The scanner slices the token out of the text, and what stands between an
/// earlier token and this one, so both have to be possible.
#[verifier::external_body]
fn feed<'a>(scanner: &mut Scanner<'a>, source: &'a str, token: Token) -> (r: bool)
    requires
        scanned(*old(scanner)) == source@,
        text::cuttable(source@, token.start as int, token.end as int),
        comes_after(token, told(*old(scanner))),
    ensures
        scanned(*final(scanner)) == source@,
        told(*final(scanner)) == told(*old(scanner)).push(Told::Token(token)),
        r == opens(source@, told(*old(scanner)), token),
        r ==> token.end == token.start + 1,
{
    let kind = match token.kind {
        TokenKind::Name => luaux::lexer::TokenKind::Name,
        TokenKind::Number => luaux::lexer::TokenKind::Number,
        TokenKind::Str => luaux::lexer::TokenKind::Str,
        TokenKind::InterpStr => luaux::lexer::TokenKind::InterpStr,
        TokenKind::Symbol => luaux::lexer::TokenKind::Symbol,
        TokenKind::Comment => luaux::lexer::TokenKind::Comment,
        TokenKind::Whitespace => luaux::lexer::TokenKind::Whitespace,
    };
    let fed = luaux::lexer::Token { kind, start: token.start, end: token.end };
    scanner.feed(fed, &luaux::lexer::Lexer::at(source, token.end))
}

/// [`luaux::markup_scan::Scanner::note_luaux_region`]: the scanner is told that
/// a region was consumed.
#[verifier::external_body]
fn note_region(scanner: &mut Scanner<'_>)
    ensures
        scanned(*final(scanner)) == scanned(*old(scanner)),
        told(*final(scanner)) == told(*old(scanner)).push(Told::Region),
{
    scanner.note_luaux_region()
}

/// One outermost LuauX region: its byte span and its parsed tree.
#[derive(Debug)]
pub struct Region {
    pub start: usize,
    pub end: usize,
    pub node: Markup,
}

/// The outermost regions from an offset on, given what came before it.
///
/// Each token is looked at in turn. One that opens LuauX is where a region
/// begins, and the search goes on past that region. It ends at the first thing
/// that does not lex or parse.
pub open spec fn regions_from(source: Seq<char>, at: int, told: Seq<Told>) -> Seq<Region>
    decreases text::bytes(source).len() - at,
{
    match lexed(source, at) {
        Lexed::Token(token) if at < token.end <= text::bytes(source).len() => {
            let more = told.push(Told::Token(token));
            if !opens(source, told, token) {
                regions_from(source, token.end as int, more)
            } else {
                match syntax::read(source, token.start as int) {
                    Some((node, end)) if at < end <= text::bytes(source).len() => seq![
                        Region { start: token.start, end, node },
                    ] + regions_from(source, end as int, more.push(Told::Region)),
                    _ => Seq::empty(),
                }
            }
        },
        _ => Seq::empty(),
    }
}

/// Every outermost region of a text.
pub open spec fn regions_of(source: Seq<char>) -> Seq<Region> {
    regions_from(source, 0, Seq::empty())
}

/// Whether regions fit the source they were read from, one after the other.
pub open spec fn laid_out(source: Seq<char>, found: Seq<Region>) -> bool {
    &&& forall|i: int|
        #![trigger found[i]]
        0 <= i < found.len() ==> {
            &&& found[i].start + 4 <= found[i].end <= text::bytes(source).len()
            &&& text::boundary(source, found[i].start as int)
            &&& text::boundary(source, found[i].end as int)
            &&& found[i].node.span() == (syntax::Extent {
                start: found[i].start,
                end: found[i].end,
            })
            &&& syntax::placed(source, found[i].node)
        }
    &&& forall|i: int, j: int|
        #![trigger found[i], found[j]]
        0 <= i < j < found.len() ==> found[i].end <= found[j].start
}

/// Every outermost LuauX region in `source`.
///
/// Stops at the first thing that will not lex or parse, returning what it found
/// so far. A half-typed file is the normal state, so a partial answer is the
/// useful one — callers that need to know whether the file is whole ask the
/// compiler, which reports the error properly.
pub fn regions(source: &str) -> (r: Vec<Region>)
    ensures
        r@ == regions_of(source@),
        laid_out(source@, r@),
{
    let n: usize = length(source);
    let mut at: usize = 0;
    let mut scanner = new_scanner(source);
    let mut found: Vec<Region> = Vec::new();
    proof {
        text::lemma_boundary_ends(source@);
        assert(found@ + regions_of(source@) =~= regions_of(source@));
    }
    loop
        invariant
            n == text::bytes(source@).len(),
            at <= n,
            text::boundary(source@, at as int),
            scanned(scanner) == source@,
            regions_of(source@) == found@ + regions_from(source@, at as int, told(scanner)),
            laid_out(source@, found@),
            found@.len() > 0 ==> found@.last().end <= at,
            forall|i: int|
                #![trigger told(scanner)[i]]
                0 <= i < told(scanner).len() ==> (told(scanner)[i] matches Told::Token(other)
                    ==> other.end <= at),
        decreases n - at,
    {
        let token = match next_token(source, at) {
            Lexed::Token(token) => token,
            _ => {
                assert(found@ + Seq::<Region>::empty() =~= found@);
                return found;
            },
        };
        let ghost before = told(scanner);
        if !feed(&mut scanner, source, token) {
            at = token.end;
            continue;
        }
        match read_node(source, token.start) {
            Some((node, end)) => {
                let region = Region { start: token.start, end, node };
                proof {
                    let rest = regions_from(
                        source@,
                        end as int,
                        before.push(Told::Token(token)).push(Told::Region),
                    );
                    assert(found@ + (seq![region] + rest) =~= found@.push(region) + rest);
                }
                found.push(region);
                at = end;
                note_region(&mut scanner);
            },
            None => {
                assert(found@ + Seq::<Region>::empty() =~= found@);
                return found;
            },
        }
    }
}

/// How reading a text to its end comes out.
#[derive(Debug, Clone, Copy, PartialEq, Eq, Structural)]
pub enum Ending {
    /// All of it was read.
    Done,
    /// Something in it does not lex or parse.
    Broken,
    /// At an offset stands a comment whose `-->` overlaps its `<!--`.
    Stuck(usize),
}

/// How reading from an offset on comes out, given what came before it.
pub open spec fn ending_from(source: Seq<char>, at: int, told: Seq<Told>) -> Ending
    decreases text::bytes(source).len() - at,
{
    match lexed(source, at) {
        Lexed::Token(token) if at < token.end <= text::bytes(source).len() => {
            let more = told.push(Told::Token(token));
            if !opens(source, told, token) {
                ending_from(source, token.end as int, more)
            } else {
                match syntax::read(source, token.start as int) {
                    Some((_, end)) if at < end <= text::bytes(source).len() => ending_from(
                        source,
                        end as int,
                        more.push(Told::Region),
                    ),
                    _ => match syntax::stuck_of(source, token.start as int) {
                        Some(at) => Ending::Stuck(at as usize),
                        None => Ending::Broken,
                    },
                }
            }
        },
        Lexed::End => Ending::Done,
        _ => Ending::Broken,
    }
}

/// How reading a text to its end comes out.
pub open spec fn ending_of(source: Seq<char>) -> Ending {
    ending_from(source, 0, Seq::empty())
}

/// Reads a text to its end.
pub fn ending(source: &str) -> (r: Ending)
    ensures
        r == ending_of(source@),
        r matches Ending::Stuck(at) ==> at < text::bytes(source@).len(),
{
    let n: usize = length(source);
    let mut at: usize = 0;
    let mut scanner = new_scanner(source);
    proof {
        text::lemma_boundary_ends(source@);
    }
    loop
        invariant
            n == text::bytes(source@).len(),
            at <= n,
            text::boundary(source@, at as int),
            scanned(scanner) == source@,
            ending_of(source@) == ending_from(source@, at as int, told(scanner)),
            forall|i: int|
                #![trigger told(scanner)[i]]
                0 <= i < told(scanner).len() ==> (told(scanner)[i] matches Told::Token(other)
                    ==> other.end <= at),
        decreases n - at,
    {
        let token = match next_token(source, at) {
            Lexed::Token(token) => token,
            Lexed::End => {
                return Ending::Done;
            },
            Lexed::Error => {
                return Ending::Broken;
            },
        };
        if !feed(&mut scanner, source, token) {
            at = token.end;
            continue;
        }
        match read_node(source, token.start) {
            Some((_, end)) => {
                at = end;
                note_region(&mut scanner);
            },
            None => {
                return match find_stuck(source, token.start) {
                    Some(at) => Ending::Stuck(at),
                    None => Ending::Broken,
                };
            },
        }
    }
}

/// Whether a text holds nothing but comments, one of which does not end.
pub open spec fn trails_off(source: Seq<char>, at: int) -> bool
    decreases text::bytes(source).len() - at,
{
    match lexed(source, at) {
        Lexed::Token(token) => at < token.end <= text::bytes(source).len() && token.trivia()
            && trails_off(source, token.end as int),
        Lexed::Error => true,
        Lexed::End => false,
    }
}

/// Whether a text holds nothing but comments, one of which does not end.
pub fn is_trailing_off(source: &str) -> (r: bool)
    ensures
        r == trails_off(source@, 0),
{
    let n: usize = length(source);
    let mut at: usize = 0;
    proof {
        text::lemma_boundary_ends(source@);
    }
    loop
        invariant
            n == text::bytes(source@).len(),
            at <= n,
            text::boundary(source@, at as int),
            trails_off(source@, 0) == trails_off(source@, at as int),
        decreases n - at,
    {
        match next_token(source, at) {
            Lexed::Token(token) => {
                if !token.is_trivia() {
                    return false;
                }
                at = token.end;
            },
            Lexed::Error => {
                return true;
            },
            Lexed::End => {
                return false;
            },
        }
    }
}

/// Byte spans only, for callers that just need to know where LuauX is.
pub fn spans(source: &str) -> (r: Vec<(usize, usize)>)
    ensures
        r@ == regions_of(source@).map_values(|region: Region| (region.start, region.end)),
{
    spans_of(&regions(source))
}

/// The byte spans of regions.
pub fn spans_of(found: &Vec<Region>) -> (r: Vec<(usize, usize)>)
    ensures
        r@ == found@.map_values(|region: Region| (region.start, region.end)),
{
    let mut out: Vec<(usize, usize)> = Vec::new();
    let mut i: usize = 0;
    while i < found.len()
        invariant
            i <= found.len(),
            out@ =~= found@.take(i as int).map_values(|region: Region| (region.start, region.end)),
        decreases found.len() - i,
    {
        out.push((found[i].start, found[i].end));
        i = i + 1;
    }
    assert(found@.take(found@.len() as int) =~= found@);
    out
}

/// Where the `}` is that closes a `{`.
pub uninterp spec fn matching_brace(source: Seq<char>, open: int) -> Option<usize>;

/// [`luaux::lexer::find_matching_brace`], which returns the offset of the `}`
/// that matches a `{`, or an error.
///
/// The result depends on the text and the offset alone, and is named. Of an
/// offset that comes back, this claims that a `}` stands there, past the `{`.
#[verifier::external_body]
fn find_matching_brace(source: &str, open: usize) -> (r: Option<usize>)
    requires
        open < text::bytes(source@).len(),
        text::bytes(source@)[open as int] == 123,
    ensures
        r == matching_brace(source@, open as int),
        r matches Some(close) ==> {
            &&& open < close < text::bytes(source@).len()
            &&& text::bytes(source@)[close as int] == 125
        },
{
    luaux::lexer::find_matching_brace(source, open).ok()
}

/// Where the text between two offsets begins and ends once trimmed, unless
/// nothing is left of it.
pub open spec fn trimmed_between(source: Seq<char>, start: int, end: int) -> Option<(int, int)> {
    let inner = text::cut(source, start, end);
    if text::trimmed(inner, Edge::White).len() == 0 {
        None
    } else {
        let from = start + text::bytes(inner.take(text::leading(inner, Edge::White))).len();
        Some((from, from + text::bytes(text::trimmed(inner, Edge::White)).len()))
    }
}

/// The trimmed expression inside the first `{ … }` at or after `from`.
pub open spec fn braced_of(source: Seq<char>, from: int) -> Option<(int, int)> {
    if !text::boundary(source, from) {
        None
    } else {
        match text::found(text::bytes(source), text::bytes("{"@), from) {
            None => None,
            Some(open) => match matching_brace(source, open) {
                None => None,
                Some(close) => trimmed_between(source, open + 1, close as int),
            },
        }
    }
}

/// Byte range of the text between two offsets, once trimmed.
pub fn trim_between(source: &str, start: usize, end: usize) -> (r: Option<(usize, usize)>)
    requires
        text::cuttable(source@, start as int, end as int),
    ensures
        match (r, trimmed_between(source@, start as int, end as int)) {
            (Some(a), Some(b)) => a.0 == b.0 && a.1 == b.1,
            (None, None) => true,
            _ => false,
        },
        r matches Some((a, b)) ==> start <= a < b <= end && text::cuttable(
            source@,
            a as int,
            b as int,
        ),
{
    let inner = slice(source, start, end);
    let (from, to) = trim_span(inner, Edge::White);
    if from == to {
        return None;
    }
    proof {
        text::lemma_boundary_inside(source@, start as int, end as int, from as int);
        text::lemma_boundary_inside(source@, start as int, end as int, to as int);
    }
    Some((start + from, start + to))
}

/// Byte range of the trimmed expression inside the `{ … }` at or after `from`.
///
/// The LuauX parser trims what it captures, so it is the trimmed slice that
/// corresponds to emitted text — and the trimmed slice that a nested region's
/// offsets are relative to.
pub fn braced(source: &str, from: usize) -> (r: Option<(usize, usize)>)
    ensures
        match (r, braced_of(source@, from as int)) {
            (Some(a), Some(b)) => a.0 == b.0 && a.1 == b.1,
            (None, None) => true,
            _ => false,
        },
        r matches Some((a, b)) ==> from < a < b <= text::bytes(source@).len() && text::cuttable(
            source@,
            a as int,
            b as int,
        ),
{
    if !source.is_char_boundary(from) {
        return None;
    }
    let open: usize = match find_from(source, "{", from) {
        Some(open) => open,
        None => {
            return None;
        },
    };
    proof {
        text::lemma_found(text::bytes(source@), text::bytes("{"@), from as int);
        lemma_brace();
        assert(text::bytes(source@).subrange(open as int, open + 1)[0] == text::bytes(
            source@,
        )[open as int]);
    }
    let close: usize = match find_matching_brace(source, open) {
        Some(close) => close,
        None => {
            return None;
        },
    };
    proof {
        text::lemma_ascii_boundaries(source@, open as int);
        text::lemma_ascii_boundaries(source@, close as int);
    }
    trim_between(source, open + 1, close)
}

/// The encoding of `{` is one byte.
proof fn lemma_brace()
    ensures
        text::bytes("{"@) == seq![123u8],
{
    reveal_strlit("{");
    assert("{"@.len() == 1);
    assert(vstd::utf8::is_ascii_chars("{"@));
    vstd::utf8::is_ascii_chars_encode_utf8("{"@);
    assert(text::bytes("{"@) =~= seq![123u8]);
}

/// Byte offset of the first token from an offset on that is not trivia.
pub open spec fn first_statement_from(source: Seq<char>, at: int) -> Option<int>
    decreases text::bytes(source).len() - at,
{
    match lexed(source, at) {
        Lexed::Token(token) if at < token.end <= text::bytes(source).len() => if token.trivia() {
            first_statement_from(source, token.end as int)
        } else {
            Some(token.start as int)
        },
        _ => None,
    }
}

/// Byte offset of the first non-trivia token — where the compiler injects its
/// helpers, and so the one place a shift can appear outside a LuauX region.
pub fn first_statement_offset(source: &str) -> (r: Option<usize>)
    ensures
        match (r, first_statement_from(source@, 0)) {
            (Some(a), Some(b)) => a == b,
            (None, None) => true,
            _ => false,
        },
        r matches Some(at) ==> at < text::bytes(source@).len() && text::boundary(source@, at as int),
{
    let n: usize = length(source);
    let mut at: usize = 0;
    proof {
        text::lemma_boundary_ends(source@);
    }
    loop
        invariant
            n == text::bytes(source@).len(),
            at <= n,
            text::boundary(source@, at as int),
            first_statement_from(source@, 0) == first_statement_from(source@, at as int),
        decreases n - at,
    {
        match next_token(source, at) {
            Lexed::Token(token) => {
                if !token.is_trivia() {
                    return Some(token.start);
                }
                at = token.end;
            },
            _ => {
                return None;
            },
        }
    }
}

/// Whether nothing but white space stands between two offsets.
pub open spec fn blank_between(source: Seq<char>, start: int, end: int) -> bool {
    let part = text::cut(source, start, end);
    forall|i: int| 0 <= i < part.len() ==> text::white(#[trigger] part[i])
}

/// What is captured of the text between two offsets is all of it but the white
/// space around it: it neither begins nor ends with white space, and nothing else
/// was left out. Nothing is captured only where there is nothing else.
pub proof fn law_a_capture_is_all_but_the_white_space(source: Seq<char>, start: int, end: int)
    requires
        text::cuttable(source, start, end),
    ensures
        match trimmed_between(source, start, end) {
            Some((from, to)) => {
                &&& start <= from < to <= end
                &&& text::cuttable(source, from, to)
                &&& blank_between(source, start, from)
                &&& blank_between(source, to, end)
                &&& text::cut(source, from, to).len() > 0
                &&& !text::white(text::cut(source, from, to)[0])
                &&& !text::white(text::cut(source, from, to).last())
            },
            None => blank_between(source, start, end),
        },
{
    let inner = text::cut(source, start, end);
    let core = text::trimmed(inner, Edge::White);
    let n = text::leading(inner, Edge::White);
    text::law_trimming_takes_the_ends_and_no_more(inner, Edge::White);
    text::lemma_cut(source, start, end);
    if core.len() > 0 {
        let z = n + core.len();
        text::lemma_cut_chars(inner, 0, n);
        text::lemma_cut_chars(inner, n, z);
        text::lemma_cut_chars(inner, z, inner.len() as int);
        assert(inner.take(0) =~= Seq::empty());
        assert(inner.take(inner.len() as int) =~= inner);
        let a = text::bytes(inner.take(n)).len() as int;
        let b = text::bytes(inner.take(z)).len() as int;
        text::lemma_bytes_concat(inner.take(0), inner.take(0));
        assert(inner.take(0) + inner.take(0) =~= inner.take(0));
        lemma_cut_inside(source, start, end, 0, a);
        lemma_cut_inside(source, start, end, a, b);
        lemma_cut_inside(source, start, end, b, end - start);
    }
}

/// Cutting a piece out of a piece is cutting it out of the text.
proof fn lemma_cut_inside(source: Seq<char>, start: int, end: int, a: int, b: int)
    requires
        text::cuttable(source, start, end),
        text::cuttable(text::cut(source, start, end), a, b),
    ensures
        text::cuttable(source, start + a, start + b),
        text::cut(source, start + a, start + b) == text::cut(
            text::cut(source, start, end),
            a,
            b,
        ),
{
    let inner = text::cut(source, start, end);
    text::lemma_cut(source, start, end);
    text::lemma_boundary_range(inner, b);
    text::lemma_boundary_inside(source, start, end, a);
    text::lemma_boundary_inside(source, start, end, b);
    text::lemma_cut(inner, a, b);
    text::lemma_cut(source, start + a, start + b);
    assert(text::bytes(source).subrange(start, end).subrange(a, b) =~= text::bytes(source).subrange(
        start + a,
        start + b,
    ));
    text::lemma_bytes_injective(
        text::cut(source, start + a, start + b),
        text::cut(inner, a, b),
    );
}

/// Every region is what the parser reads where it begins, and ends where that
/// does.
pub proof fn law_a_region_is_what_the_parser_reads(source: Seq<char>, at: int, told: Seq<Told>, i: int)
    requires
        0 <= i < regions_from(source, at, told).len(),
    ensures
        ({
            let region = regions_from(source, at, told)[i];
            syntax::read(source, region.start as int) == Some((region.node, region.end))
        }),
    decreases text::bytes(source).len() - at,
{
    if let Lexed::Token(token) = lexed(source, at) {
        if at < token.end <= text::bytes(source).len() {
            let more = told.push(Told::Token(token));
            if !opens(source, told, token) {
                law_a_region_is_what_the_parser_reads(source, token.end as int, more, i);
            } else if let Some((node, end)) = syntax::read(source, token.start as int) {
                if i > 0 {
                    law_a_region_is_what_the_parser_reads(
                        source,
                        end as int,
                        more.push(Told::Region),
                        i - 1,
                    );
                }
            }
        }
    }
}

} // verus!
