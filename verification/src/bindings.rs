//! Where a name was bound.
//!
//! The compiler's resolver answers *whether* a name is bound, which is all it
//! needs to decide intrinsic-versus-component. Hover and go-to-definition want
//! the position as well, and that is a lexical question: find the `local`,
//! `local function` or `function` that introduces it.
//!
//! Deliberately not a scope analysis. A tag resolves against the whole file, so
//! the first binding of a name is the one that made `<Row/>` legal, and a
//! shadowed local of the same name is not a different component.

use vstd::prelude::*;
use vstd::string::*;

use crate::luau;
use crate::regions::{self, Token, TokenKind};
use crate::resolving;
use crate::text::{self, same, slice};

verus! {

/// Every token of a Luau text, or nothing if it does not lex.
pub uninterp spec fn tokens_of(source: Seq<char>) -> Option<Seq<Token>>;

/// Whether every token can be cut out of a text.
pub open spec fn within(source: Seq<char>, tokens: Seq<Token>) -> bool {
    forall|i: int|
        #![trigger tokens[i]]
        0 <= i < tokens.len() ==> text::cuttable(
            source,
            tokens[i].start as int,
            tokens[i].end as int,
        )
}

/// Whether every name is made of letters, digits and underscores, and as long
/// as it can be.
pub open spec fn worded(source: Seq<char>, tokens: Seq<Token>) -> bool {
    forall|i: int|
        #![trigger tokens[i]]
        0 <= i < tokens.len() && tokens[i].kind is Name ==> {
            &&& tokens[i].start < tokens[i].end
            &&& forall|p: int|
                tokens[i].start <= p < tokens[i].end ==> luau::name_byte(
                    #[trigger] text::bytes(source)[p],
                )
            &&& tokens[i].end < text::bytes(source).len() ==> !luau::name_byte(
                text::bytes(source)[tokens[i].end as int],
            )
        }
}

/// [`luaux::lexer::tokenize`], which lexes a whole text.
///
/// The result depends on the text alone, and is named. Of tokens that come
/// back, this claims that each lies between two boundaries of the text, and what
/// [`worded`] says of names.
#[verifier::external_body]
fn tokenize(source: &str) -> (r: Option<Vec<Token>>)
    ensures
        match (r, tokens_of(source@)) {
            (Some(a), Some(b)) => a@ == b && within(source@, b) && worded(source@, b),
            (None, None) => true,
            _ => false,
        },
{
    let token_of = |token: luaux::lexer::Token| Token {
        kind: match token.kind {
            luaux::lexer::TokenKind::Name => TokenKind::Name,
            luaux::lexer::TokenKind::Number => TokenKind::Number,
            luaux::lexer::TokenKind::Str => TokenKind::Str,
            luaux::lexer::TokenKind::InterpStr => TokenKind::InterpStr,
            luaux::lexer::TokenKind::Symbol => TokenKind::Symbol,
            luaux::lexer::TokenKind::Comment => TokenKind::Comment,
            luaux::lexer::TokenKind::Whitespace => TokenKind::Whitespace,
        },
        start: token.start,
        end: token.end,
    };
    luaux::lexer::tokenize(source).ok().map(|tokens| tokens.into_iter().map(token_of).collect())
}

/// The text of a token.
pub open spec fn token_text(source: Seq<char>, token: Token) -> Seq<char> {
    text::cut(source, token.start as int, token.end as int)
}

/// The tokens that are not trivia.
pub open spec fn significant(tokens: Seq<Token>) -> Seq<Token> {
    tokens.filter(|token: Token| !token.trivia())
}

/// Whether a token is a name in a list that started with `local`: names and
/// commas alternate back to it.
pub open spec fn local_list(source: Seq<char>, tokens: Seq<Token>, at: int) -> bool
    decreases at + 1,
{
    if at < 1 || !(tokens[at].kind is Name) {
        false
    } else if token_text(source, tokens[at - 1]) == "local"@ {
        true
    } else {
        token_text(source, tokens[at - 1]) == ","@ && local_list(source, tokens, at - 2)
    }
}

/// Whether a token is a name that is being introduced: `local Row`,
/// `local a, Row` or `function Row`.
pub open spec fn introduces(
    source: Seq<char>,
    tokens: Seq<Token>,
    at: int,
    name: Seq<char>,
) -> bool {
    &&& tokens[at].kind is Name
    &&& token_text(source, tokens[at]) == name
    &&& at >= 1
    &&& {
        let before = token_text(source, tokens[at - 1]);
        ||| before == "local"@
        ||| before == "function"@
        ||| before == ","@ && local_list(source, tokens, at - 2)
    }
}

/// The first token from one on that introduces a name.
pub open spec fn introduction(
    source: Seq<char>,
    tokens: Seq<Token>,
    at: int,
    name: Seq<char>,
) -> Option<Token>
    decreases tokens.len() - at,
{
    if at >= tokens.len() {
        None
    } else if introduces(source, tokens, at, name) {
        Some(tokens[at])
    } else {
        introduction(source, tokens, at + 1, name)
    }
}

/// Where a name is introduced among the tokens of a text.
pub open spec fn binding_in(source: Seq<char>, tokens: Seq<Token>, name: Seq<char>) -> Option<
    (usize, usize),
> {
    match introduction(source, significant(tokens), 0, name) {
        Some(token) => Some((token.start, token.end)),
        None => None,
    }
}

/// Where a file introduces a name, its LuauX left out of account.
pub open spec fn binding_of(source: Seq<char>, name: Seq<char>) -> Option<(usize, usize)> {
    match tokens_of(resolving::blanked_file(source)) {
        Some(tokens) => binding_in(resolving::blanked_file(source), tokens, name),
        None => None,
    }
}

/// Whether blanking keeps every offset up to one, and puts a whole `nil` for
/// every region that begins there: no region has a character of several bytes,
/// or the end of a line, at its first three bytes.
pub open spec fn kept(source: Seq<char>, end: int) -> bool {
    let found = regions::regions_of(source);
    forall|i: int|
        #![trigger found[i]]
        0 <= i < found.len() && found[i].start <= end ==> {
            &&& resolving::even(
                text::cut(source, found[i].start as int, found[i].end as int),
                0,
            )
            &&& text::bytes(source)[found[i].start as int] != 10
            &&& text::bytes(source)[found[i].start + 1] != 10
            &&& text::bytes(source)[found[i].start + 2] != 10
        }
}

/// Whether a name could be one that blanking made: it ends in `nil`, or is an
/// end of it.
pub open spec fn made_up(name: Seq<u8>) -> bool {
    ||| name.len() >= 3 && name.subrange(name.len() - 3, name.len() as int) == seq![110u8, 105, 108]
    ||| name == seq![105u8, 108]
    ||| name == seq![108u8]
}

/// Whether a range is where the source itself holds a name, outside of every
/// region.
pub open spec fn holds(source: Seq<char>, start: int, end: int, name: Seq<char>) -> bool {
    let found = regions::regions_of(source);
    &&& text::cuttable(source, start, end)
    &&& text::cut(source, start, end) == name
    &&& forall|i: int|
        #![trigger found[i]]
        0 <= i < found.len() ==> end <= found[i].start || found[i].end <= start
}

/// What is introduced is one of the tokens, a name, and the one sought.
proof fn lemma_introduction(source: Seq<char>, tokens: Seq<Token>, at: int, name: Seq<char>)
    requires
        0 <= at,
    ensures
        introduction(source, tokens, at, name) matches Some(token) ==> token.kind is Name
            && token_text(source, token) == name && exists|j: int|
            0 <= j < tokens.len() && #[trigger] tokens[j] == token,
    decreases tokens.len() - at,
{
    if at < tokens.len() && !introduces(source, tokens, at, name) {
        lemma_introduction(source, tokens, at + 1, name);
    }
}

/// One byte of a blanked file, where blanking kept the offsets.
proof fn lemma_blanked_byte(source: Seq<char>, p: int, end: int)
    requires
        regions::laid_out(source, regions::regions_of(source)),
        kept(source, end),
        0 <= p <= end,
        p < text::bytes(source).len(),
    ensures
        p < text::bytes(resolving::blanked_file(source)).len(),
        forall|i: int|
            #![trigger regions::regions_of(source)[i]]
            0 <= i < regions::regions_of(source).len() && regions::regions_of(source)[i].start <= p
                < regions::regions_of(source)[i].end ==> text::bytes(
                resolving::blanked_file(source),
            )[p] == resolving::patch(
                text::bytes(source)[p],
                p - regions::regions_of(source)[i].start,
            ),
        (forall|i: int|
            #![trigger regions::regions_of(source)[i]]
            0 <= i < regions::regions_of(source).len() ==> !(regions::regions_of(source)[i].start
                <= p < regions::regions_of(source)[i].end)) ==> text::bytes(
            resolving::blanked_file(source),
        )[p] == text::bytes(source)[p],
{
    let found = regions::regions_of(source);
    let spans = found.map_values(|region: regions::Region| (region.start, region.end));
    let (s, b) = (text::bytes(source), text::bytes(resolving::blanked_file(source)));
    text::lemma_boundary_ends(source);
    resolving::lemma_spans_in_turn(source);
    assert forall|i: int| #![trigger spans[i]] 0 <= i < spans.len() && spans[i].0 <= p implies resolving::even(
        text::cut(source, spans[i].0 as int, spans[i].1 as int),
        0,
    ) by {
        assert(found[i].start <= end);
    }
    resolving::lemma_blanked(source, spans, 0, p);
    assert forall|i: int|
        #![trigger found[i]]
        0 <= i < found.len() && found[i].start <= p < found[i].end implies b[p] == resolving::patch(
        s[p],
        p - found[i].start,
    ) by {
        assert(spans[i] == (found[i].start, found[i].end));
    }
    if forall|i: int|
        #![trigger found[i]]
        0 <= i < found.len() ==> !(found[i].start <= p < found[i].end) {
        assert forall|i: int| #![trigger spans[i]] 0 <= i < spans.len() implies !(spans[i].0 <= p
            < spans[i].1) by {
            assert(found[i].start == spans[i].0);
        }
    }
}

/// A name that is found where blanking kept the offsets stands in the source.
proof fn lemma_holds(source: Seq<char>, token: Token, name: Seq<char>)
    requires
        regions::laid_out(source, regions::regions_of(source)),
        text::cuttable(resolving::blanked_file(source), token.start as int, token.end as int),
        token.kind is Name,
        worded(resolving::blanked_file(source), seq![token]),
        token_text(resolving::blanked_file(source), token) == name,
        kept(source, token.end as int),
        !made_up(text::bytes(name)),
    ensures
        holds(source, token.start as int, token.end as int, name),
{
    let found = regions::regions_of(source);
    let spans = found.map_values(|region: regions::Region| (region.start, region.end));
    let blanked = resolving::blanked_file(source);
    let (s, b) = (text::bytes(source), text::bytes(blanked));
    let (start, end) = (token.start as int, token.end as int);
    assert(seq![token][0] == token);
    text::lemma_boundary_ends(source);
    text::lemma_cut(blanked, start, end);
    resolving::lemma_spans_in_turn(source);
    resolving::lemma_blanked_length(source, spans, 0);
    assert(b.len() <= s.len());
    assert forall|i: int| #![trigger found[i]] 0 <= i < found.len() implies end <= found[i].start
        || found[i].end <= start by {
        let (from, to) = (found[i].start as int, found[i].end as int);
        if from < end && start < to {
            assert forall|p: int| #![trigger b[p]] from <= p < to && p <= end implies b[p]
                == resolving::patch(s[p], p - from) by {
                lemma_blanked_byte(source, p, end);
                assert(found[i].start == from && found[i].end == to);
            }
            if end < s.len() {
                lemma_blanked_byte(source, end, end);
            }
            lemma_no_overlap(s, b, start, end, from, to);
            assert(b.subrange(start, end) == text::bytes(name));
        }
    }
    assert(b.subrange(start, end) =~= s.subrange(start, end)) by {
        assert forall|p: int| start <= p < end implies b[p] == s[p] by {
            lemma_blanked_byte(source, p, end);
            assert forall|i: int| #![trigger found[i]] 0 <= i < found.len() implies !(found[i].start
                <= p < found[i].end) by {}
        }
    }
    assert(b.subrange(start, end)[0] == s.subrange(start, end)[0]);
    assert(b.subrange(start, end)[end - 1 - start] == s.subrange(start, end)[end - 1 - start]);
    assert(luau::name_byte(b[start]) && luau::name_byte(b[end - 1]));
    text::lemma_ascii_boundaries(source, start);
    text::lemma_ascii_boundaries(source, end - 1);
    text::lemma_cut(source, start, end);
    text::lemma_bytes_injective(text::cut(source, start, end), name);
}

/// A whole word that reaches into filler is one that the filler made up.
proof fn lemma_no_overlap(s: Seq<u8>, b: Seq<u8>, start: int, end: int, from: int, to: int)
    requires
        0 <= start < end <= b.len() <= s.len(),
        0 <= from,
        from + 4 <= to <= s.len(),
        from < end,
        start < to,
        s[from] != 10 && s[from + 1] != 10 && s[from + 2] != 10,
        end < s.len() ==> end < b.len(),
        forall|p: int|
            #![trigger b[p]]
            from <= p < to && p <= end ==> b[p] == resolving::patch(s[p], p - from),
        forall|p: int| start <= p < end ==> luau::name_byte(#[trigger] b[p]),
        end < b.len() ==> !luau::name_byte(b[end]),
    ensures
        made_up(b.subrange(start, end)),
{
    let word = b.subrange(start, end);
    if start > from + 2 {
        assert(luau::name_byte(b[start]));
    } else if end > from + 3 {
        assert(luau::name_byte(b[from + 3]));
    } else {
        if end < from + 3 {
            assert(end < s.len());
            assert(b[end] == resolving::patch(s[end], end - from));
        }
        assert(end == from + 3);
        if start <= from {
            assert(b[from] == 110 && b[from + 1] == 105 && b[from + 2] == 108);
            assert(word.subrange(word.len() - 3, word.len() as int) =~= seq![110u8, 105, 108]);
        } else if start == from + 1 {
            assert(b[from + 1] == 105 && b[from + 2] == 108);
            assert(word =~= seq![105u8, 108]);
        } else {
            assert(b[from + 2] == 108);
            assert(word =~= seq![108u8]);
        }
    }
}

/// Byte range of the defining occurrence of `name`, if there is one.
pub fn find(source: &str, name: &str) -> (r: Option<(usize, usize)>)
    ensures
        r == binding_of(source@, name@),
        r matches Some((start, end)) ==> (kept(source@, end as int) && !made_up(text::bytes(name@))
            ==> holds(source@, start as int, end as int, name@)),
{
    // `.luaux` is not lexable as Luau, so the regions go first.
    let blanked = resolving::blank(source);
    match tokenize(blanked.as_str()) {
        Some(tokens) => {
            proof {
                let left = significant(tokens@);
                lemma_introduction(blanked@, left, 0, name@);
                if let Some(token) = introduction(blanked@, left, 0, name@) {
                    let i = choose|i: int| 0 <= i < left.len() && #[trigger] left[i] == token;
                    lemma_filtered(tokens@, |token: Token| !token.trivia(), i);
                    let j = choose|j: int|
                        0 <= j < tokens@.len() && #[trigger] tokens@[j] == left[i];
                    assert(tokens@[j] == token);
                    assert(worded(blanked@, seq![token]));
                    if kept(source@, token.end as int) && !made_up(text::bytes(name@)) {
                        lemma_holds(source@, token, name@);
                    }
                }
            }
            find_in(blanked.as_str(), &tokens, name)
        },
        None => None,
    }
}

/// Byte range of the defining occurrence of `name` among the tokens of a text.
pub fn find_in(source: &str, tokens: &Vec<Token>, name: &str) -> (r: Option<(usize, usize)>)
    requires
        within(source@, tokens@),
    ensures
        r == binding_in(source@, tokens@, name@),
{
    let found = without_trivia(tokens);
    proof {
        assert forall|i: int| #![trigger found@[i]] 0 <= i < found@.len() implies text::cuttable(
            source@,
            found@[i].start as int,
            found@[i].end as int,
        ) by {
            lemma_filtered(tokens@, |token: Token| !token.trivia(), i);
        }
    }
    let mut index: usize = 0;
    while index < found.len()
        invariant
            index <= found@.len(),
            found@ == significant(tokens@),
            within(source@, found@),
            introduction(source@, found@, 0, name@) == introduction(
                source@,
                found@,
                index as int,
                name@,
            ),
        decreases found@.len() - index,
    {
        let token = found[index];
        assert(found@[index as int] == token);
        if matches!(token.kind, TokenKind::Name) && same(slice(source, token.start, token.end), name)
            && index >= 1 {
            let previous = found[index - 1];
            assert(found@[index - 1] == previous);
            let before = slice(source, previous.start, previous.end);
            if same(before, "local") || same(before, "function") || same(before, ",")
                && is_local_list(source, &found, index - 1) {
                return Some((token.start, token.end));
            }
        }
        index = index + 1;
    }
    None
}

fn without_trivia(tokens: &Vec<Token>) -> (r: Vec<Token>)
    ensures
        r@ == significant(tokens@),
{
    let mut out: Vec<Token> = Vec::new();
    let mut i: usize = 0;
    let ghost keep = |token: Token| !token.trivia();
    reveal(Seq::filter);
    while i < tokens.len()
        invariant
            i <= tokens@.len(),
            keep == |token: Token| !token.trivia(),
            out@ == tokens@.take(i as int).filter(keep),
        decreases tokens@.len() - i,
    {
        proof {
            reveal(Seq::filter);
            assert(tokens@.take(i + 1).drop_last() =~= tokens@.take(i as int));
            assert(tokens@.take(i + 1).last() == tokens@[i as int]);
        }
        if !tokens[i].is_trivia() {
            out.push(tokens[i]);
        }
        i = i + 1;
    }
    assert(tokens@.take(tokens@.len() as int) =~= tokens@);
    out
}

/// What is left of a sequence was in it.
proof fn lemma_filtered(tokens: Seq<Token>, keep: spec_fn(Token) -> bool, i: int)
    requires
        0 <= i < tokens.filter(keep).len(),
    ensures
        exists|j: int| 0 <= j < tokens.len() && #[trigger] tokens[j] == tokens.filter(keep)[i],
    decreases tokens.len(),
{
    reveal(Seq::filter);
    let rest = tokens.drop_last().filter(keep);
    if i < rest.len() {
        lemma_filtered(tokens.drop_last(), keep, i);
        let j = choose|j: int| 0 <= j < tokens.drop_last().len() && #[trigger] tokens.drop_last()[j] == rest[i];
        assert(tokens[j] == tokens.filter(keep)[i]);
    } else {
        assert(tokens[tokens.len() - 1] == tokens.filter(keep)[i]);
    }
}

/// Walks back over `a, b, c` to see whether the list started with `local`. The
/// walk begins just before `end`, two tokens at a time.
fn is_local_list(source: &str, tokens: &Vec<Token>, end: usize) -> (r: bool)
    requires
        within(source@, tokens@),
        end <= tokens@.len(),
    ensures
        r == local_list(source@, tokens@, end - 1),
{
    let mut at: usize = end;
    while at >= 2
        invariant
            within(source@, tokens@),
            at <= tokens@.len(),
            local_list(source@, tokens@, end - 1) == local_list(source@, tokens@, at - 1),
        decreases at,
    {
        let name = tokens[at - 1];
        if !matches!(name.kind, TokenKind::Name) {
            return false;
        }
        let before = tokens[at - 2];
        assert(tokens@[at - 2] == before);
        let text = slice(source, before.start, before.end);
        if same(text, "local") {
            return true;
        }
        if !same(text, ",") {
            return false;
        }
        at = at - 2;
    }
    false
}

/// Whether a `local` at one token opens a list that reaches up to another: between
/// them stand names, with commas between those.
pub open spec fn lists(source: Seq<char>, tokens: Seq<Token>, opened: int, at: int) -> bool {
    &&& 0 <= opened < at
    &&& (at - opened) % 2 == 1
    &&& token_text(source, tokens[opened]) == "local"@
    &&& forall|m: int|
        #![trigger tokens[m]]
        opened < m < at ==> if (m - opened) % 2 == 1 {
            tokens[m].kind is Name
        } else {
            token_text(source, tokens[m]) == ","@
        }
}

/// Whether a name is declared at a token: right after `function`, or in a list
/// that a `local` opens.
pub open spec fn declares(
    source: Seq<char>,
    tokens: Seq<Token>,
    at: int,
    name: Seq<char>,
) -> bool {
    &&& tokens[at].kind is Name
    &&& token_text(source, tokens[at]) == name
    &&& at >= 1
    &&& token_text(source, tokens[at - 1]) == "function"@ || exists|opened: int| #[trigger]
        lists(source, tokens, opened, at)
}

/// A name is found where it is declared first, whether alone, in a list or as a
/// function, and it is not found only where it is declared nowhere.
pub proof fn law_the_first_declaration_is_found(
    source: Seq<char>,
    tokens: Seq<Token>,
    name: Seq<char>,
)
    ensures
        ({
            let list = significant(tokens);
            match binding_in(source, tokens, name) {
                Some((start, end)) => exists|at: int|
                    {
                        &&& 0 <= at < list.len()
                        &&& #[trigger] declares(source, list, at, name)
                        &&& (start, end) == (list[at].start, list[at].end)
                        &&& forall|j: int|
                            0 <= j < at ==> !#[trigger] declares(source, list, j, name)
                    },
                None => forall|at: int|
                    0 <= at < list.len() ==> !#[trigger] declares(source, list, at, name),
            }
        }),
{
    let list = significant(tokens);
    lemma_first(source, list, 0, name);
    assert forall|at: int| 0 <= at < list.len() implies #[trigger] declares(source, list, at, name)
        == introduces(source, list, at, name) by {
        lemma_declares(source, list, at, name);
    }
    if binding_in(source, tokens, name) is Some {
        let at = choose|at: int|
            {
                &&& 0 <= at < list.len()
                &&& #[trigger] introduces(source, list, at, name)
                &&& introduction(source, list, 0, name) == Some(list[at])
                &&& forall|j: int| 0 <= j < at ==> !#[trigger] introduces(source, list, j, name)
            };
        assert(declares(source, list, at, name));
    }
}

proof fn lemma_first(source: Seq<char>, tokens: Seq<Token>, from: int, name: Seq<char>)
    requires
        0 <= from,
    ensures
        match introduction(source, tokens, from, name) {
            Some(token) => exists|at: int|
                {
                    &&& from <= at < tokens.len()
                    &&& #[trigger] introduces(source, tokens, at, name)
                    &&& token == tokens[at]
                    &&& forall|j: int|
                        from <= j < at ==> !#[trigger] introduces(source, tokens, j, name)
                },
            None => forall|at: int|
                from <= at < tokens.len() ==> !#[trigger] introduces(source, tokens, at, name),
        },
    decreases tokens.len() - from,
{
    if from < tokens.len() && !introduces(source, tokens, from, name) {
        lemma_first(source, tokens, from + 1, name);
        if introduction(source, tokens, from + 1, name) is Some {
            let at = choose|at: int|
                {
                    &&& from + 1 <= at < tokens.len()
                    &&& #[trigger] introduces(source, tokens, at, name)
                    &&& introduction(source, tokens, from + 1, name) == Some(tokens[at])
                    &&& forall|j: int|
                        from + 1 <= j < at ==> !#[trigger] introduces(source, tokens, j, name)
                };
            assert(introduces(source, tokens, at, name));
        }
    }
}

proof fn lemma_declares(source: Seq<char>, tokens: Seq<Token>, at: int, name: Seq<char>)
    requires
        0 <= at < tokens.len(),
    ensures
        declares(source, tokens, at, name) == introduces(source, tokens, at, name),
{
    if at >= 1 && tokens[at].kind is Name {
        lemma_lists(source, tokens, at);
    }
}

/// Walking back over a list finds the `local` that opened it.
proof fn lemma_lists(source: Seq<char>, tokens: Seq<Token>, at: int)
    requires
        0 <= at < tokens.len(),
        tokens[at].kind is Name,
    ensures
        local_list(source, tokens, at) <==> exists|opened: int| #[trigger]
            lists(source, tokens, opened, at),
    decreases at,
{
    lemma_spelled_apart();
    reveal_with_fuel(local_list, 2);
    if at >= 1 {
        if token_text(source, tokens[at - 1]) == "local"@ {
            assert(lists(source, tokens, at - 1, at));
        } else {
            if local_list(source, tokens, at) {
                lemma_lists(source, tokens, at - 2);
                let opened = choose|opened: int| #[trigger] lists(source, tokens, opened, at - 2);
                assert(lists(source, tokens, opened, at));
            }
            if exists|opened: int| #[trigger] lists(source, tokens, opened, at) {
                let opened = choose|opened: int| #[trigger] lists(source, tokens, opened, at);
                assert(opened < at - 1);
                assert(token_text(source, tokens[at - 1]) == ","@);
                assert(tokens[at - 2].kind is Name);
                assert(lists(source, tokens, opened, at - 2));
                lemma_lists(source, tokens, at - 2);
            }
        }
    }
}

proof fn lemma_spelled_apart()
    ensures
        "local"@ != ","@,
{
    reveal_strlit("local");
    reveal_strlit(",");
    assert("local"@.len() == 5 && ","@.len() == 1);
}

} // verus!
