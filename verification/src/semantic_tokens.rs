//! Semantic tokens — where the server beats the grammar.
//!
//! TextMate is regex-only. It cannot know whether `<Button>` is a Roblox class
//! or a component defined on line 3, so both get one colour. The resolver does
//! know, and saying so is a small feature with an outsized effect: the file
//! starts communicating structure the grammar cannot see.
//!
//! The grammar stays as the zero-latency fallback for when the server is
//! starting, crashed or absent, so these tokens only ever *refine* a file that
//! is already highlighted.

use vstd::prelude::*;
use vstd::string::*;

use luaux::config::Config;

use crate::classes::is_class;
use crate::document::{self, Document};
use crate::json::{self, Json, JsonView};
use crate::line_index::{self, Position};
use crate::pieces::has_char;
use crate::project::Project;
use crate::resolving::{self, is_among, names_in, MeaningView};
use crate::settings::{self, resolve_element, Claim};
use crate::syntax::{self, TagName};
use crate::text;
use crate::tree::{self, flatten, Tag};

verus! {

/// The legend, in the order the indices below refer to. Reported in
/// `initialize`, and the client is entitled to assume it never changes.
pub const TYPES: [&'static str; 2] = ["class", "function"];

pub const CLASS: u32 = 0;

pub const COMPONENT: u32 = 1;

/// What a tag is coloured as: a class, a component, or neither.
pub open spec fn kind_of(config: Config, bound: Set<Seq<char>>, written: Seq<char>) -> Option<u32> {
    if written.contains('.') {
        Some(COMPONENT)
    } else if resolving::class_of(config, written) is Some {
        Some(CLASS)
    } else if settings::claimed_tags(config).contains_key(written) {
        None
    } else if bound.contains(written) {
        Some(COMPONENT)
    } else {
        None
    }
}

pub fn classify(written: &str, config: &Config, bound: &Vec<String>) -> (r: Option<u32>)
    ensures
        r == kind_of(*config, resolving::as_set(bound@), written@),
{
    // No Roblox class has a dot, so a dotted name is a component by construction.
    if has_char(written, '.') {
        return Some(COMPONENT);
    }
    match resolve_element(config, written) {
        Claim::Class(_) => Some(CLASS),
        // Retired by an alias: an error, not a class.
        Claim::Retired => None,
        Claim::Unclaimed => if is_class(written) {
            Some(CLASS)
        } else if is_among(bound, written) {
            Some(COMPONENT)
        } else {
            None
        },
    }
}

/// A name to colour.
#[derive(Debug, Clone, Copy, PartialEq, Eq, Structural)]
pub struct Coloured {
    pub start: usize,
    pub end: usize,
    pub kind: u32,
}

/// The names of an element to colour: both, if it is known what they are.
pub open spec fn names_of(config: Config, bound: Set<Seq<char>>, tag: Tag) -> Seq<Coloured> {
    match kind_of(config, bound, tag.name@) {
        Some(kind) => if tag.name@.len() == 0 {
            Seq::empty()
        } else {
            let open = Coloured { start: tag.open_name.0, end: tag.open_name.1, kind };
            match tag.close_name {
                Some((start, end)) => seq![open, Coloured { start, end, kind }],
                None => seq![open],
            }
        },
        None => Seq::empty(),
    }
}

/// The names of some elements to colour, in the order of the elements.
pub open spec fn all_names(config: Config, bound: Set<Seq<char>>, tags: Seq<Tag>) -> Seq<Coloured>
    decreases tags.len(),
{
    if tags.len() == 0 {
        Seq::empty()
    } else {
        all_names(config, bound, tags.drop_last()) + names_of(config, bound, tags.last())
    }
}

fn collect(tag: &Tag, config: &Config, bound: &Vec<String>, out: &mut Vec<Coloured>)
    ensures
        final(out)@ == old(out)@ + names_of(*config, resolving::as_set(bound@), *tag),
{
    let ghost before = out@;
    // A fragment has no name to colour.
    if tag.name.as_str().is_empty() {
        assert(out@ =~= before + Seq::<Coloured>::empty());
        return;
    }
    // A name that resolves to neither is an error the compiler already reports;
    // colouring it as either would be a guess dressed up as knowledge.
    if let Some(kind) = classify(tag.name.as_str(), config, bound) {
        out.push(Coloured { start: tag.open_name.0, end: tag.open_name.1, kind });
        if let Some((start, end)) = tag.close_name {
            out.push(Coloured { start, end, kind });
        }
    }
    assert(out@ =~= before + names_of(*config, resolving::as_set(bound@), *tag));
}

/// How many of some names begin no later than an offset.
pub open spec fn begun_by(names: Seq<Coloured>, start: int) -> int
    decreases names.len(),
{
    if names.len() == 0 {
        0
    } else {
        begun_by(names.drop_last(), start) + if names.last().start <= start {
            1int
        } else {
            0
        }
    }
}

/// Names by where they begin; those that begin together keep their order.
pub open spec fn by_start(names: Seq<Coloured>) -> Seq<Coloured>
    decreases names.len(),
{
    if names.len() == 0 {
        Seq::empty()
    } else {
        let before = by_start(names.drop_last());
        before.insert(begun_by(before, names.last().start as int), names.last())
    }
}

/// Whether names are ordered by where they begin.
pub open spec fn ascending(names: Seq<Coloured>) -> bool {
    forall|i: int, j: int|
        0 <= i < j < names.len() ==> (#[trigger] names[i]).start <= (#[trigger] names[j]).start
}

proof fn lemma_begun_by(names: Seq<Coloured>, start: int, n: int)
    requires
        ascending(names),
        0 <= n <= names.len(),
        n > 0 ==> names[n - 1].start <= start,
        n < names.len() ==> start < names[n].start,
    ensures
        begun_by(names, start) == n,
    decreases names.len(),
{
    if names.len() > 0 {
        let rest = names.drop_last();
        assert forall|i: int, j: int| 0 <= i < j < rest.len() implies (#[trigger] rest[i]).start
            <= (#[trigger] rest[j]).start by {
            assert(names[i].start <= names[j].start);
        }
        if n == names.len() {
            if n > 1 {
                assert(names[n - 2].start <= names[n - 1].start);
            }
            lemma_begun_by(rest, start, n - 1);
        } else {
            assert(names[n].start <= names.last().start) by {
                if n < names.len() - 1 {
                    assert(names[n].start <= names[names.len() - 1].start);
                }
            }
            lemma_begun_by(rest, start, n);
        }
    }
}

proof fn lemma_begun_by_range(names: Seq<Coloured>, start: int)
    requires
        ascending(names),
    ensures
        0 <= begun_by(names, start) <= names.len(),
        forall|i: int| 0 <= i < begun_by(names, start) ==> (#[trigger] names[i]).start <= start,
        forall|i: int|
            begun_by(names, start) <= i < names.len() ==> start < (#[trigger] names[i]).start,
    decreases names.len(),
{
    if names.len() > 0 {
        let rest = names.drop_last();
        assert forall|i: int, j: int| 0 <= i < j < rest.len() implies (#[trigger] rest[i]).start
            <= (#[trigger] rest[j]).start by {
            assert(names[i].start <= names[j].start);
        }
        lemma_begun_by_range(rest, start);
        let k = begun_by(rest, start);
        if names.last().start <= start && k < rest.len() {
            assert(start < rest[k].start);
            assert(names[k].start <= names[names.len() - 1].start);
        }
        assert forall|i: int| 0 <= i < begun_by(names, start) implies (#[trigger] names[i]).start
            <= start by {
            if i < k {
                assert(rest[i].start <= start);
            }
        }
        assert forall|i: int| begun_by(names, start) <= i < names.len() implies start < (
        #[trigger] names[i]).start by {
            if i < rest.len() {
                assert(start < rest[i].start);
            }
        }
    }
}

/// Sorting puts names in the order in which they begin.
pub proof fn lemma_by_start(names: Seq<Coloured>)
    ensures
        ascending(by_start(names)),
        by_start(names).len() == names.len(),
    decreases names.len(),
{
    if names.len() > 0 {
        let before = by_start(names.drop_last());
        let last = names.last();
        lemma_by_start(names.drop_last());
        lemma_begun_by_range(before, last.start as int);
        let k = begun_by(before, last.start as int);
        let sorted = before.insert(k, last);
        assert forall|i: int, j: int| 0 <= i < j < sorted.len() implies (#[trigger] sorted[i]).start
            <= (#[trigger] sorted[j]).start by {
            if i < k && j > k {
                assert(sorted[i] == before[i]);
                assert(sorted[j] == before[j - 1]);
            } else if j < k {
                assert(sorted[i] == before[i] && sorted[j] == before[j]);
            } else if i > k {
                assert(sorted[i] == before[i - 1] && sorted[j] == before[j - 1]);
            } else if i == k {
                assert(sorted[j] == before[j - 1]);
            } else {
                assert(sorted[i] == before[i]);
            }
        }
    }
}

/// Sorts names by where they begin.
///
/// Both names of an element are emitted, and a nested element's names sit
/// between them, so sorting is not optional — the encoding is a delta chain.
pub fn sort_by_start(names: &Vec<Coloured>) -> (r: Vec<Coloured>)
    ensures
        r@ == by_start(names@),
{
    let mut out: Vec<Coloured> = Vec::new();
    let mut i: usize = 0;
    while i < names.len()
        invariant
            i <= names@.len(),
            out@ == by_start(names@.take(i as int)),
        decreases names@.len() - i,
    {
        let one = names[i];
        proof {
            assert(names@.take(i + 1).drop_last() =~= names@.take(i as int));
            assert(names@.take(i + 1).last() == one);
            lemma_by_start(names@.take(i as int));
        }
        let mut k: usize = out.len();
        while k > 0 && out[k - 1].start > one.start
            invariant
                k <= out@.len(),
                k < out@.len() ==> one.start < out@[k as int].start,
            decreases k,
        {
            k = k - 1;
        }
        proof {
            lemma_begun_by(out@, one.start as int, k as int);
        }
        out.insert(k, one);
        i = i + 1;
    }
    assert(names@.take(i as int) =~= names@);
    out
}

/// How long a name is on its line.
pub open spec fn token_length(source: Seq<char>, one: Coloured) -> u32 {
    let start = line_index::position_of(source, one.start as int).character;
    let end = line_index::position_of(source, one.end as int).character;
    if end <= start {
        0
    } else {
        (end - start) as u32
    }
}

/// The last token among some names: the last of them that has a length.
pub open spec fn last_token(source: Seq<char>, names: Seq<Coloured>) -> Position
    decreases names.len(),
{
    if names.len() == 0 {
        Position { line: 0, character: 0 }
    } else if token_length(source, names.last()) == 0 {
        last_token(source, names.drop_last())
    } else {
        line_index::position_of(source, names.last().start as int)
    }
}

/// One position seen from another: lines down, and characters along from there
/// or, on another line, from its start.
pub open spec fn delta(previous: Position, at: Position) -> (u32, u32) {
    let line = at.line.wrapping_sub(previous.line);
    (
        line,
        if line == 0 {
            at.character.wrapping_sub(previous.character)
        } else {
            at.character
        },
    )
}

/// The encoding of names: of each, five numbers.
pub open spec fn encoded(source: Seq<char>, names: Seq<Coloured>) -> Seq<u32>
    decreases names.len(),
{
    if names.len() == 0 {
        Seq::empty()
    } else {
        let before = encoded(source, names.drop_last());
        let one = names.last();
        let length = token_length(source, one);
        if length == 0 {
            before
        } else {
            let at = line_index::position_of(source, one.start as int);
            let (line, character) = delta(last_token(source, names.drop_last()), at);
            before.push(line).push(character).push(length).push(one.kind).push(0)
        }
    }
}

/// Encodes names, each relative to the one before.
pub fn encode(document: &Document, names: &Vec<Coloured>) -> (r: Vec<u32>)
    requires
        document.wf(),
    ensures
        r@ == encoded(document.text@, names@),
{
    let source = document.text.as_str();
    let mut data: Vec<u32> = Vec::new();
    let mut previous = Position { line: 0, character: 0 };
    let mut i: usize = 0;
    while i < names.len()
        invariant
            document.wf(),
            source@ == document.text@,
            i <= names@.len(),
            previous == last_token(source@, names@.take(i as int)),
            data@ == encoded(source@, names@.take(i as int)),
        decreases names@.len() - i,
    {
        let one = names[i];
        proof {
            assert(names@.take(i + 1).drop_last() =~= names@.take(i as int));
            assert(names@.take(i + 1).last() == one);
        }
        let at = document.index.position(source, one.start);
        let end = document.index.position(source, one.end);
        if end.character > at.character {
            let line: u32 = at.line.wrapping_sub(previous.line);
            let character: u32 = if line == 0 {
                at.character.wrapping_sub(previous.character)
            } else {
                at.character
            };
            data.push(line);
            data.push(character);
            data.push(end.character - at.character);
            data.push(one.kind);
            data.push(0);
            previous = at;
        }
        i = i + 1;
    }
    assert(names@.take(i as int) =~= names@);
    data
}

/// Numbers, as JSON.
pub open spec fn numbers_json(data: Seq<u32>) -> JsonView {
    JsonView::Array(data.map_values(|n: u32| JsonView::number(n as u64)))
}

fn numbers(data: &Vec<u32>) -> (r: Json)
    ensures
        r@ == numbers_json(data@),
{
    let ghost all = data@.map_values(|n: u32| JsonView::number(n as u64));
    let mut out: Vec<Json> = Vec::new();
    let mut i: usize = 0;
    while i < data.len()
        invariant
            i <= data@.len(),
            all == data@.map_values(|n: u32| JsonView::number(n as u64)),
            json::list_view(out@) == all.take(i as int),
        decreases data@.len() - i,
    {
        let one = Json::number(data[i] as u64);
        proof {
            json::lemma_list_view_push(out@, one);
            assert(all.take(i + 1) =~= all.take(i as int).push(one@));
        }
        out.push(one);
        i = i + 1;
    }
    assert(all.take(i as int) =~= all);
    Json::Array(out)
}

/// What a file is coloured as, given its elements.
pub open spec fn coloured(source: Seq<char>, config: Config, tags: Seq<Tag>) -> JsonView {
    let bound = resolving::names_of(source);
    JsonView::object().with(
        "data"@,
        numbers_json(encoded(source, by_start(all_names(config, bound, tree::flat(tags))))),
    )
}

/// The colour of every tag name in a file.
pub fn tokens(document: &Document, project: &Project) -> (r: Json)
    requires
        document.wf(),
    ensures
        exists|tags: Seq<Tag>| #[trigger]
            tree::treed(document.text@, tags) && r@ == coloured(
                document.text@,
                project.config,
                tags,
            ),
{
    let source = document.text.as_str();
    let bound = names_in(source, &project.config);
    let tags = tree::tree(source);
    let all = flatten(tags.as_slice());
    let ghost seen = tree::flat(tags@);
    let ghost known = resolving::as_set(bound@);
    let mut names: Vec<Coloured> = Vec::new();
    let mut i: usize = 0;
    while i < all.len()
        invariant
            i <= all@.len(),
            known == resolving::as_set(bound@),
            all@.map_values(|tag: &Tag| *tag) == seen,
            names@ == all_names(project.config, known, seen.take(i as int)),
        decreases all@.len() - i,
    {
        proof {
            assert(seen[i as int] == *all@[i as int]);
            assert(seen.take(i + 1).drop_last() =~= seen.take(i as int));
            assert(seen.take(i + 1).last() == *all@[i as int]);
        }
        collect(all[i], &project.config, &bound, &mut names);
        i = i + 1;
    }
    assert(seen.take(i as int) =~= seen);
    let sorted = sort_by_start(&names);
    let data = encode(document, &sorted);
    let r = Json::object().with("data", numbers(&data));
    assert(tree::treed(document.text@, tags@));
    r
}

/// A token, where it is in the file.
pub struct Shown {
    pub at: Position,
    pub length: u32,
    pub kind: u32,
}

/// The tokens that names come to.
pub open spec fn shown(source: Seq<char>, names: Seq<Coloured>) -> Seq<Shown>
    decreases names.len(),
{
    if names.len() == 0 {
        Seq::empty()
    } else {
        let before = shown(source, names.drop_last());
        let one = names.last();
        let length = token_length(source, one);
        if length == 0 {
            before
        } else {
            before.push(
                Shown {
                    at: line_index::position_of(source, one.start as int),
                    length,
                    kind: one.kind,
                },
            )
        }
    }
}

/// A position, from another and the way from there.
pub open spec fn moved(previous: Position, line: u32, character: u32) -> Position {
    Position {
        line: previous.line.wrapping_add(line),
        character: if line == 0 {
            previous.character.wrapping_add(character)
        } else {
            character
        },
    }
}

/// What a client makes of an encoding, five numbers at a time.
pub open spec fn decoded(data: Seq<u32>) -> Seq<Shown>
    decreases data.len(),
{
    if data.len() < 5 {
        Seq::empty()
    } else {
        let n = data.len() - 5;
        let before = decoded(data.take(n));
        let previous = if before.len() == 0 {
            Position { line: 0, character: 0 }
        } else {
            before.last().at
        };
        before.push(
            Shown { at: moved(previous, data[n], data[n + 1]), length: data[n + 2], kind: data[n + 3] },
        )
    }
}

/// A client that decodes what was encoded gets every name that has a length,
/// where it is, how long it is and what it is coloured as.
pub proof fn law_tokens_decode(source: Seq<char>, names: Seq<Coloured>)
    ensures
        decoded(encoded(source, names)) == shown(source, names),
{
    lemma_decoded(source, names);
}

proof fn lemma_decoded(source: Seq<char>, names: Seq<Coloured>)
    ensures
        decoded(encoded(source, names)) == shown(source, names),
        last_token(source, names) == if shown(source, names).len() == 0 {
            Position { line: 0, character: 0 }
        } else {
            shown(source, names).last().at
        },
    decreases names.len(),
{
    if names.len() > 0 {
        lemma_decoded(source, names.drop_last());
        let before = encoded(source, names.drop_last());
        let data = encoded(source, names);
        if token_length(source, names.last()) != 0 {
            assert(data.take(data.len() - 5) =~= before);
            assert(decoded(data) =~= shown(source, names));
        }
    }
}

/// The tokens of a file come in the order in which they stand in it.
pub proof fn law_tokens_come_in_order(source: Seq<char>, names: Seq<Coloured>, i: int, j: int)
    requires
        text::bytes(source).len() <= u32::MAX,
        0 <= i < j < shown(source, by_start(names)).len(),
    ensures
        ({
            let first = shown(source, by_start(names))[i].at;
            let second = shown(source, by_start(names))[j].at;
            first.line < second.line || first.line == second.line && first.character
                <= second.character
        }),
{
    lemma_by_start(names);
    lemma_shown_order(source, by_start(names), i, j);
}

proof fn lemma_shown_order(source: Seq<char>, names: Seq<Coloured>, i: int, j: int)
    requires
        text::bytes(source).len() <= u32::MAX,
        ascending(names),
        0 <= i < j < shown(source, names).len(),
    ensures
        ({
            let first = shown(source, names)[i].at;
            let second = shown(source, names)[j].at;
            first.line < second.line || first.line == second.line && first.character
                <= second.character
        }),
    decreases names.len(),
{
    let rest = names.drop_last();
    assert forall|a: int, b: int| 0 <= a < b < rest.len() implies (#[trigger] rest[a]).start <= (
    #[trigger] rest[b]).start by {
        assert(names[a].start <= names[b].start);
    }
    if j < shown(source, rest).len() {
        lemma_shown_order(source, rest, i, j);
    } else {
        let a = lemma_shown_from(source, rest, i);
        assert(names[a].start <= names[names.len() - 1].start);
        line_index::law_positions_keep_order(
            source,
            names[a].start as int,
            names.last().start as int,
        );
    }
}

/// Each token is one of the names.
proof fn lemma_shown_from(source: Seq<char>, names: Seq<Coloured>, i: int) -> (a: int)
    requires
        0 <= i < shown(source, names).len(),
    ensures
        0 <= a < names.len(),
        shown(source, names)[i].at == line_index::position_of(source, names[a].start as int),
    decreases names.len(),
{
    let rest = names.drop_last();
    if i < shown(source, rest).len() {
        lemma_shown_from(source, rest, i)
    } else {
        names.len() - 1
    }
}

/// A name is coloured as what the compiler takes it for: a class as a class, a
/// component as a component, and what it takes for neither not at all.
pub proof fn law_a_colour_is_what_the_compiler_takes_a_name_for(
    config: Config,
    bound: Set<Seq<char>>,
    name: TagName,
)
    requires
        match name {
            TagName::Simple(simple) => !simple@.contains('.'),
            TagName::Member(parts) => parts@.len() > 1,
        },
    ensures
        kind_of(config, bound, name.written()) == match resolving::meaning_of(config, bound, name) {
            MeaningView::Intrinsic(_) => Some(0u32),
            MeaningView::Component => Some(1u32),
            MeaningView::Unresolved => None,
        },
        TYPES@[0]@ == "class"@,
        TYPES@[1]@ == "function"@,
{
    if let TagName::Member(parts) = name {
        let before = syntax::dotted(parts@.drop_last());
        reveal_strlit(".");
        assert(syntax::dotted(parts@)[before.len() as int] == '.');
    }
}

/// The numbers that a JSON list holds.
pub open spec fn numbers_of(list: Seq<JsonView>) -> Seq<u32> {
    list.map_values(|n: JsonView| n.u64()->Some_0 as u32)
}

/// What a token covers of a file.
pub open spec fn place_of(source: Seq<char>, token: Shown) -> Option<(int, int)> {
    let end = Position {
        line: token.at.line,
        character: (token.at.character + token.length) as u32,
    };
    match (line_index::offset_of(source, token.at), line_index::offset_of(source, end)) {
        (Some(start), Some(end)) => Some((start, end)),
        _ => None,
    }
}

/// Whether one of some tokens covers a name and has its colour.
pub open spec fn covers(
    source: Seq<char>,
    tokens: Seq<Shown>,
    name: (usize, usize),
    kind: u32,
) -> bool {
    exists|k: int|
        {
            &&& 0 <= k < tokens.len()
            &&& place_of(source, #[trigger] tokens[k]) == Some((name.0 as int, name.1 as int))
            &&& tokens[k].kind == kind
        }
}

/// Whether a token covers a name of one of some elements and has the colour of
/// that name.
pub open spec fn is_name_of(
    source: Seq<char>,
    config: Config,
    tags: Seq<Tag>,
    token: Shown,
) -> bool {
    exists|i: int|
        {
            &&& 0 <= i < tags.len()
            &&& kind_of(config, resolving::names_of(source), (#[trigger] tags[i]).name@) == Some(
                token.kind,
            )
            &&& place_of(source, token) matches Some((start, end)) && text::cut(
                source,
                start,
                end,
            ) == tags[i].name@
        }
}

/// Whether a name stands on one line.
pub open spec fn on_one_line(name: Seq<char>) -> bool {
    forall|p: int|
        0 <= p < text::bytes(name).len() ==> #[trigger] text::bytes(name)[p] != 10 && text::bytes(
            name,
        )[p] != 13
}

/// What a client decodes is every name of every element of a known kind, in both
/// halves, and nothing else: each token covers exactly such a name in the file and
/// has its colour.
///
/// A name with a line's end in it, which no tag has, is no token.
#[verifier::rlimit(40)]
pub proof fn law_every_known_name_is_coloured_and_nothing_else(
    source: Seq<char>,
    config: Config,
    tags: Seq<Tag>,
)
    requires
        tree::treed(source, tags),
        text::bytes(source).len() <= u32::MAX,
        forall|i: int|
            0 <= i < tree::flat(tags).len() ==> on_one_line(
                (#[trigger] tree::flat(tags)[i]).name@,
            ),
    ensures
        ({
            let all = tree::flat(tags);
            match coloured(source, config, tags).get_array("data"@) {
                Some(list) => {
                    let tokens = decoded(numbers_of(list));
                    &&& forall|k: int|
                        0 <= k < tokens.len() ==> is_name_of(
                            source,
                            config,
                            all,
                            #[trigger] tokens[k],
                        )
                    &&& forall|i: int|
                        #![trigger all[i]]
                        0 <= i < all.len() && all[i].name@.len() > 0 ==> match kind_of(
                            config,
                            resolving::names_of(source),
                            all[i].name@,
                        ) {
                            Some(kind) => {
                                &&& covers(source, tokens, all[i].open_name, kind)
                                &&& all[i].close_name matches Some(close) ==> covers(
                                    source,
                                    tokens,
                                    close,
                                    kind,
                                )
                            },
                            None => true,
                        }
                },
                None => false,
            }
        }),
{
    let bound = resolving::names_of(source);
    let all = tree::flat(tags);
    let names = all_names(config, bound, all);
    let sorted = by_start(names);
    let data = encoded(source, sorted);
    let list = data.map_values(|n: u32| JsonView::number(n as u64));
    json::lemma_gets();
    assert(coloured(source, config, tags).get_array("data"@) == Some(list));
    assert(numbers_of(list) =~= data);
    law_tokens_decode(source, sorted);
    let tokens = shown(source, sorted);
    lemma_same_names(names);
    assert forall|k: int| 0 <= k < tokens.len() implies is_name_of(
        source,
        config,
        all,
        #[trigger] tokens[k],
    ) by {
        let a = lemma_shown_names(source, sorted, k);
        assert(sorted.contains(sorted[a]));
        assert(names.contains(sorted[a]));
        let i = lemma_from_a_tag(config, bound, all, sorted[a]);
        tree::law_names_are_where_they_say(source, tags, i);
        lemma_token(source, sorted[a], all[i].name@);
        assert(kind_of(config, bound, all[i].name@) == Some(tokens[k].kind));
    }
    assert forall|i: int|
        #![trigger all[i]]
        0 <= i < all.len() && all[i].name@.len() > 0 && kind_of(
            config,
            bound,
            all[i].name@,
        ) is Some implies covers(
        source,
        tokens,
        all[i].open_name,
        kind_of(config, bound, all[i].name@)->Some_0,
    ) && (all[i].close_name matches Some(close) ==> covers(
        source,
        tokens,
        close,
        kind_of(config, bound, all[i].name@)->Some_0,
    )) by {
        tree::law_names_are_where_they_say(source, tags, i);
        let mine = names_of(config, bound, all[i]);
        lemma_a_tags_names(config, bound, all, i);
        assert(mine.contains(mine[0]));
        lemma_named_shown(source, sorted, mine[0], all[i].name@);
        if all[i].close_name is Some {
            assert(mine.contains(mine[1]));
            lemma_named_shown(source, sorted, mine[1], all[i].name@);
        }
    }
}

/// Sorting loses no name and makes none up.
proof fn lemma_same_names(names: Seq<Coloured>)
    ensures
        forall|one: Coloured| #[trigger] by_start(names).contains(one) <==> names.contains(one),
    decreases names.len(),
{
    if names.len() > 0 {
        let rest = names.drop_last();
        let before = by_start(rest);
        let last = names.last();
        lemma_same_names(rest);
        lemma_by_start(rest);
        lemma_begun_by_range(before, last.start as int);
        let k = begun_by(before, last.start as int);
        let sorted = by_start(names);
        assert forall|one: Coloured| #[trigger] sorted.contains(one) implies names.contains(
            one,
        ) by {
            let i = choose|i: int| 0 <= i < sorted.len() && sorted[i] == one;
            if i == k {
                assert(names[names.len() - 1] == one);
            } else {
                let j = if i < k {
                    i
                } else {
                    i - 1
                };
                assert(before[j] == one);
                assert(before.contains(one));
                let m = choose|m: int| 0 <= m < rest.len() && rest[m] == one;
                assert(names[m] == one);
            }
        }
        assert forall|one: Coloured| names.contains(one) implies #[trigger] sorted.contains(
            one,
        ) by {
            let m = choose|m: int| 0 <= m < names.len() && names[m] == one;
            if m == names.len() - 1 {
                assert(sorted[k] == one);
            } else {
                assert(rest[m] == one);
                assert(rest.contains(one));
                assert(before.contains(one));
                let j = choose|j: int| 0 <= j < before.len() && before[j] == one;
                if j < k {
                    assert(sorted[j] == one);
                } else {
                    assert(sorted[j + 1] == one);
                }
            }
        }
    }
}

/// Each token is one of the names, as long as it and coloured as it.
proof fn lemma_shown_names(source: Seq<char>, names: Seq<Coloured>, k: int) -> (a: int)
    requires
        0 <= k < shown(source, names).len(),
    ensures
        0 <= a < names.len(),
        shown(source, names)[k] == (Shown {
            at: line_index::position_of(source, names[a].start as int),
            length: token_length(source, names[a]),
            kind: names[a].kind,
        }),
    decreases names.len(),
{
    let rest = names.drop_last();
    if k < shown(source, rest).len() {
        let a = lemma_shown_names(source, rest, k);
        assert(rest[a] == names[a]);
        a
    } else {
        names.len() - 1
    }
}

/// Each name that has a length is a token.
proof fn lemma_all_shown(source: Seq<char>, names: Seq<Coloured>, a: int) -> (k: int)
    requires
        0 <= a < names.len(),
        token_length(source, names[a]) != 0,
    ensures
        0 <= k < shown(source, names).len(),
        shown(source, names)[k] == (Shown {
            at: line_index::position_of(source, names[a].start as int),
            length: token_length(source, names[a]),
            kind: names[a].kind,
        }),
    decreases names.len(),
{
    let rest = names.drop_last();
    if a < rest.len() {
        assert(rest[a] == names[a]);
        lemma_all_shown(source, rest, a)
    } else {
        shown(source, rest).len() as int
    }
}

proof fn lemma_from_a_tag(
    config: Config,
    bound: Set<Seq<char>>,
    tags: Seq<Tag>,
    one: Coloured,
) -> (i: int)
    requires
        all_names(config, bound, tags).contains(one),
    ensures
        0 <= i < tags.len(),
        tags[i].name@.len() > 0,
        kind_of(config, bound, tags[i].name@) == Some(one.kind),
        (one.start, one.end) == tags[i].open_name || Some((one.start, one.end))
            == tags[i].close_name,
    decreases tags.len(),
{
    let rest = tags.drop_last();
    let before = all_names(config, bound, rest);
    let mine = names_of(config, bound, tags.last());
    let all = all_names(config, bound, tags);
    let k = choose|k: int| 0 <= k < all.len() && all[k] == one;
    if k < before.len() {
        assert(before[k] == one);
        let i = lemma_from_a_tag(config, bound, rest, one);
        assert(rest[i] == tags[i]);
        i
    } else {
        assert(mine[k - before.len()] == one);
        tags.len() - 1
    }
}

proof fn lemma_a_tags_names(config: Config, bound: Set<Seq<char>>, tags: Seq<Tag>, i: int)
    requires
        0 <= i < tags.len(),
    ensures
        forall|one: Coloured|
            names_of(config, bound, tags[i]).contains(one) ==> #[trigger] all_names(
                config,
                bound,
                tags,
            ).contains(one),
    decreases tags.len(),
{
    let rest = tags.drop_last();
    let before = all_names(config, bound, rest);
    let mine = names_of(config, bound, tags.last());
    let all = all_names(config, bound, tags);
    if i < rest.len() {
        assert(rest[i] == tags[i]);
        lemma_a_tags_names(config, bound, rest, i);
    }
    assert forall|one: Coloured|
        names_of(config, bound, tags[i]).contains(one) implies #[trigger] all.contains(one) by {
        if i < rest.len() {
            assert(before.contains(one));
            let k = choose|k: int| 0 <= k < before.len() && before[k] == one;
            assert(all[k] == one);
        } else {
            let k = choose|k: int| 0 <= k < mine.len() && mine[k] == one;
            assert(all[before.len() + k] == one);
        }
    }
}

/// A name on one line has a length, and a position can say where it begins and
/// where it ends.
proof fn lemma_token(source: Seq<char>, one: Coloured, name: Seq<char>)
    requires
        text::bytes(source).len() <= u32::MAX,
        text::cuttable(source, one.start as int, one.end as int),
        text::cut(source, one.start as int, one.end as int) == name,
        name.len() > 0,
        on_one_line(name),
    ensures
        token_length(source, one) != 0,
        place_of(
            source,
            Shown {
                at: line_index::position_of(source, one.start as int),
                length: token_length(source, one),
                kind: one.kind,
            },
        ) == Some((one.start as int, one.end as int)),
{
    let (start, end) = (one.start as int, one.end as int);
    let b = text::bytes(source);
    text::lemma_cut(source, start, end);
    vstd::utf8::encode_utf8_first_scalar(name);
    assert(text::bytes(name)[0] != 10);
    assert(text::bytes(name)[end - start - 1] != 13);
    document::lemma_sayable(source, start, end);
    text::lemma_boundary_range(source, start);
    text::lemma_boundary_range(source, end);
    assert forall|p: int| start <= p < end implies #[trigger] b[p] != 10 by {
        assert(text::bytes(name)[p - start] == b[p]);
    }
    line_index::lemma_one_line(b, start, end);
    line_index::lemma_floor_fixed(source, start);
    line_index::lemma_floor_fixed(source, end);
    line_index::law_positions_round_trip(source, start);
    line_index::law_positions_round_trip(source, end);
    line_index::law_positions_keep_order(source, start, end);
}

/// A name among some is a token, and that token covers it.
proof fn lemma_named_shown(
    source: Seq<char>,
    names: Seq<Coloured>,
    one: Coloured,
    name: Seq<char>,
)
    requires
        names.contains(one),
        text::bytes(source).len() <= u32::MAX,
        text::cuttable(source, one.start as int, one.end as int),
        text::cut(source, one.start as int, one.end as int) == name,
        name.len() > 0,
        on_one_line(name),
    ensures
        covers(source, shown(source, names), (one.start, one.end), one.kind),
{
    let a = choose|a: int| 0 <= a < names.len() && names[a] == one;
    lemma_token(source, one, name);
    let k = lemma_all_shown(source, names, a);
    assert(shown(source, names)[k].kind == one.kind);
}

} // verus!
