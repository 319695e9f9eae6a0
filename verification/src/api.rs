//! Roblox member types and documentation.
//!
//! The compiler's tables answer *whether* `MouseEnter` exists on a class, which
//! is all compiling needs. Editing wants more: what type it is, what it does,
//! and — for an event — what a handler is handed.
//!
//! That comes from the same two files this server already passes to luau-lsp:
//! the Roblox type definitions and the API docs the luau-lsp extension
//! downloads. Reading them rather than shipping our own copy is what keeps our
//! tooltips and luau-lsp's from disagreeing about the same member — and means
//! there is one thing to keep up to date, not two.

use vstd::prelude::*;
use vstd::string::*;

use crate::pieces::{self, is_name, lines, next_word, split_once, strip_prefix, strip_suffix};
use crate::text::{self, byte_count, length, same, slice, trim, Edge};

verus! {

/// A member as the definitions declare it.
#[derive(Debug, PartialEq, Eq)]
pub struct Member {
    /// The class that declares it, which is often an ancestor of the one asked
    /// about — `MouseEnter` belongs to `GuiObject`, not `TextButton`.
    pub declared_by: String,
    /// Its Luau type, verbatim: `Color3`, `RBXScriptSignal<(number, number)>`.
    pub luau_type: String,
}

/// A member, as texts.
pub struct MemberView {
    pub declared_by: Seq<char>,
    pub luau_type: Seq<char>,
}

impl View for Member {
    type V = MemberView;

    open spec fn view(&self) -> MemberView {
        MemberView { declared_by: self.declared_by@, luau_type: self.luau_type@ }
    }
}

/// How much deeper in brackets a character takes a type. The `>` of `->` is no
/// bracket: `->` is one token.
pub open spec fn bracket(text: Seq<char>, i: int) -> int {
    if text[i] == '<' || text[i] == '(' || text[i] == '{' || text[i] == '[' {
        1
    } else if text[i] == '>' && i > 0 && text[i - 1] == '-' {
        0
    } else if text[i] == '>' || text[i] == ')' || text[i] == '}' || text[i] == ']' {
        -1
    } else {
        0
    }
}

/// How deep in brackets a character stands.
pub open spec fn depth(text: Seq<char>, i: int) -> int
    decreases i,
{
    if i <= 0 {
        0
    } else {
        depth(text, i - 1) + bracket(text, i - 1)
    }
}

/// The pieces of a text from an offset on, cut at the commas that stand in no
/// brackets. The piece being read began at `start`.
pub open spec fn segments(text: Seq<char>, start: int, i: int) -> Seq<Seq<char>>
    decreases text.len() - i,
{
    if i >= text.len() {
        seq![text.subrange(start, text.len() as int)]
    } else if text[i] == ',' && depth(text, i) == 0 {
        seq![text.subrange(start, i)] + segments(text, i + 1, i + 1)
    } else {
        segments(text, start, i + 1)
    }
}

/// Pieces, trimmed, without those of which nothing is left.
pub open spec fn tidied(pieces: Seq<Seq<char>>) -> Seq<Seq<char>>
    decreases pieces.len(),
{
    if pieces.len() == 0 {
        Seq::empty()
    } else {
        let rest = tidied(pieces.drop_first());
        let piece = text::trimmed(pieces[0], Edge::White);
        if piece.len() == 0 {
            rest
        } else {
            seq![piece] + rest
        }
    }
}

/// `a, b<c, d>, e`, split on the commas that are not inside brackets.
pub open spec fn top_level(text: Seq<char>) -> Seq<Seq<char>> {
    tidied(segments(text, 0, 0))
}

/// The parameter types that an event's type names, if it is an event's.
pub open spec fn parameters_of(luau_type: Seq<char>) -> Option<Seq<Seq<char>>> {
    match pieces::stripped(luau_type, "RBXScriptSignal<"@) {
        None => None,
        Some(rest) => match pieces::unended(rest, ">"@) {
            None => None,
            Some(inner) => Some(top_level(unwrapped(text::trimmed(inner, Edge::White)))),
        },
    }
}

/// A text without the parentheses around it, if they are there.
pub open spec fn unwrapped(text: Seq<char>) -> Seq<char> {
    match pieces::stripped(text, "("@) {
        None => text,
        Some(rest) => match pieces::unended(rest, ")"@) {
            None => text,
            Some(inner) => inner,
        },
    }
}

/// Strings as texts.
pub open spec fn strings(list: Seq<String>) -> Seq<Seq<char>> {
    list.map_values(|one: String| one@)
}

impl Member {
    /// The parameter types an event hands its listener, if it is one.
    ///
    /// Two spellings are in the wild and a machine can have both, since the
    /// luau-lsp extension keeps one file per security level and only refreshes
    /// the one in use. Newer releases parenthesise the pack —
    /// `RBXScriptSignal<(number, number)>` — and older ones do not:
    /// `RBXScriptSignal<number, number>`. Stripping an optional wrapper and then
    /// splitting handles both, and a lone `RBXScriptSignal<InputObject>` falls
    /// out of the same rule.
    pub fn event_parameters(&self) -> (r: Option<Vec<String>>)
        ensures
            match (r, parameters_of(self.luau_type@)) {
                (Some(a), Some(b)) => strings(a@) == b,
                (None, None) => true,
                _ => false,
            },
    {
        let rest = match strip_prefix(self.luau_type.as_str(), "RBXScriptSignal<") {
            Some(rest) => rest,
            None => {
                return None;
            },
        };
        let inner = match strip_suffix(rest, ">") {
            Some(inner) => trim(inner, Edge::White),
            None => {
                return None;
            },
        };
        let inner = match strip_prefix(inner, "(") {
            Some(rest) => match strip_suffix(rest, ")") {
                Some(rest) => rest,
                None => inner,
            },
            None => inner,
        };
        Some(split_top_level(inner))
    }
}

/// Splits `a, b<c, d>, e` on the commas that are not inside brackets.
pub fn split_top_level(text: &str) -> (r: Vec<String>)
    ensures
        strings(r@) == top_level(text@),
{
    let n: usize = length(text);
    let mut parts: Vec<String> = Vec::new();
    let mut deep: i128 = 0;
    let mut previous = ' ';
    let mut from: usize = 0;
    let mut index: usize = 0;
    let ghost mut start: int = 0;
    proof {
        assert(strings(parts@) + top_level(text@) =~= top_level(text@));
    }
    for c in it: text.chars()
        invariant
            it.seq() == text@,
            n == text::bytes(text@).len(),
            0 <= start <= it.index() <= text@.len(),
            deep == depth(text@, it.index()),
            -it.index() <= deep <= it.index() <= index <= n,
            it.index() > 0 ==> previous == text@[it.index() - 1],
            it.index() == 0 ==> previous == ' ',
            from == text::bytes(text@.take(start)).len(),
            index == text::bytes(text@.take(it.index())).len(),
            top_level(text@) == strings(parts@) + tidied(segments(text@, start, it.index())),
    {
        let ghost i = it.index();
        proof {
            assert(text@[i] == c);
            assert(text@.take(i + 1) =~= text@.take(i).push(c));
            text::lemma_bytes_push(text@.take(i), c);
            text::lemma_prefix_bytes(text@, i + 1);
            text::lemma_cut_chars(text@, start, i);
        }
        let width: usize = byte_count(c);
        if c == ',' && deep == 0 {
            proof {
                let rest = segments(text@, i + 1, i + 1);
                let all = seq![text@.subrange(start, i)] + rest;
                assert(all.drop_first() =~= rest);
            }
            add_part(&mut parts, slice(text, from, index));
            proof {
                let rest = tidied(segments(text@, i + 1, i + 1));
                lemma_tidied_first(text@.subrange(start, i), segments(text@, i + 1, i + 1));
                start = i + 1;
            }
            from = index + width;
        } else if c == '<' || c == '(' || c == '{' || c == '[' {
            deep = deep + 1;
        } else if c == '>' && previous == '-' {
            // Not a bracket: `->` is one token, and counting its `>` as a closer
            // leaves the depth negative for the rest of the type, so no later
            // comma ever splits.
        } else if c == '>' || c == ')' || c == '}' || c == ']' {
            deep = deep - 1;
        }
        index = index + width;
        previous = c;
    }
    proof {
        text::lemma_cut_chars(text@, start, text@.len() as int);
        assert(text@.take(text@.len() as int) =~= text@);
        let last = text@.subrange(start, text@.len() as int);
        assert(seq![last] =~= seq![last] + Seq::<Seq<char>>::empty());
        lemma_tidied_first(last, Seq::empty());
    }
    add_part(&mut parts, slice(text, from, n));
    assert(strings(parts@) + Seq::<Seq<char>>::empty() =~= strings(parts@));
    parts
}

/// One more piece, trimmed, if anything is left of it.
pub open spec fn tidied_one(piece: Seq<char>) -> Seq<Seq<char>> {
    let piece = text::trimmed(piece, Edge::White);
    if piece.len() == 0 {
        Seq::empty()
    } else {
        seq![piece]
    }
}

proof fn lemma_tidied_first(piece: Seq<char>, rest: Seq<Seq<char>>)
    ensures
        tidied(seq![piece] + rest) == tidied_one(piece) + tidied(rest),
        forall|before: Seq<Seq<char>>| #[trigger]
            (before + (tidied_one(piece) + tidied(rest))) == (before + tidied_one(piece)) + tidied(
                rest,
            ),
{
    assert((seq![piece] + rest).drop_first() =~= rest);
    assert(tidied(seq![piece] + rest) =~= tidied_one(piece) + tidied(rest));
    assert forall|before: Seq<Seq<char>>| #[trigger]
        (before + (tidied_one(piece) + tidied(rest))) == (before + tidied_one(piece)) + tidied(
            rest,
        ) by {
        assert(before + (tidied_one(piece) + tidied(rest)) =~= (before + tidied_one(piece))
            + tidied(rest));
    }
}

fn add_part(parts: &mut Vec<String>, piece: &str)
    ensures
        strings(final(parts)@) == strings(old(parts)@) + tidied_one(piece@),
{
    let part = trim(piece, Edge::White);
    let ghost before = strings(parts@);
    if part.is_empty() {
        assert(before + Seq::<Seq<char>>::empty() =~= before);
    } else {
        let part = part.to_owned();
        proof {
            assert(strings(parts@.push(part)) =~= before + seq![part@]);
        }
        parts.push(part);
    }
}

/// A class as the definitions declare it, as plain values.
#[verifier::ext_equal]
pub struct ClassView {
    pub extends: Option<Seq<char>>,
    /// Each member's type.
    pub members: Map<Seq<char>, Seq<char>>,
}

/// A member and its type.
#[derive(Debug)]
pub struct Typed {
    pub name: String,
    pub luau_type: String,
}

#[derive(Debug)]
pub struct Class {
    pub name: String,
    pub extends: Option<String>,
    /// In the order they were declared. Of two of one name, the later stands.
    pub members: Vec<Typed>,
}

pub open spec fn types_of(members: Seq<Typed>) -> Map<Seq<char>, Seq<char>>
    decreases members.len(),
{
    if members.len() == 0 {
        Map::empty()
    } else {
        types_of(members.drop_last()).insert(members.last().name@, members.last().luau_type@)
    }
}

impl View for Class {
    type V = ClassView;

    open spec fn view(&self) -> ClassView {
        ClassView { extends: text::view_of(self.extends), members: types_of(self.members@) }
    }
}

impl Class {
    /// The type of a member that the class declares itself.
    pub fn get(&self, member: &str) -> (r: Option<&String>)
        ensures
            match r {
                Some(luau_type) => self@.members.contains_key(member@) && self@.members[member@]
                    == luau_type@,
                None => !self@.members.contains_key(member@),
            },
    {
        let mut i: usize = self.members.len();
        assert(self.members@.take(i as int) =~= self.members@);
        while i > 0
            invariant
                i <= self.members@.len(),
                types_of(self.members@).contains_key(member@) == types_of(
                    self.members@.take(i as int),
                ).contains_key(member@),
                types_of(self.members@).contains_key(member@) ==> types_of(
                    self.members@,
                )[member@] == types_of(self.members@.take(i as int))[member@],
            decreases i,
        {
            assert(self.members@.take(i as int).drop_last() =~= self.members@.take(i - 1));
            assert(self.members@.take(i as int).last() == self.members@[i - 1]);
            if same(self.members[i - 1].name.as_str(), member) {
                return Some(&self.members[i - 1].luau_type);
            }
            i = i - 1;
        }
        None
    }
}

/// Classes, in the order they were declared. Of two of one name, the later
/// stands.
#[derive(Debug)]
pub struct Classes {
    pub list: Vec<Class>,
}

pub open spec fn classes_of(list: Seq<Class>) -> Map<Seq<char>, ClassView>
    decreases list.len(),
{
    if list.len() == 0 {
        Map::empty()
    } else {
        classes_of(list.drop_last()).insert(list.last().name@, list.last()@)
    }
}

impl View for Classes {
    type V = Map<Seq<char>, ClassView>;

    open spec fn view(&self) -> Map<Seq<char>, ClassView> {
        classes_of(self.list@)
    }
}

impl Classes {
    pub fn get(&self, name: &str) -> (r: Option<&Class>)
        ensures
            match r {
                Some(class) => self@.contains_key(name@) && self@[name@] == class@,
                None => !self@.contains_key(name@),
            },
    {
        let mut i: usize = self.list.len();
        assert(self.list@.take(i as int) =~= self.list@);
        while i > 0
            invariant
                i <= self.list@.len(),
                classes_of(self.list@).contains_key(name@) == classes_of(
                    self.list@.take(i as int),
                ).contains_key(name@),
                classes_of(self.list@).contains_key(name@) ==> classes_of(self.list@)[name@]
                    == classes_of(self.list@.take(i as int))[name@],
            decreases i,
        {
            assert(self.list@.take(i as int).drop_last() =~= self.list@.take(i - 1));
            assert(self.list@.take(i as int).last() == self.list@[i - 1]);
            if same(self.list[i - 1].name.as_str(), name) {
                return Some(&self.list[i - 1]);
            }
            i = i - 1;
        }
        None
    }
}

/// The name and the parent in a class's header, if a line is one.
pub open spec fn header_of(line: Seq<char>) -> Option<(Seq<char>, Option<Seq<char>>)> {
    let rest = match pieces::stripped(line, "declare extern type "@) {
        Some(rest) => Some(rest),
        None => pieces::stripped(line, "declare class "@),
    };
    match rest {
        None => None,
        Some(rest) => match pieces::word_of(rest) {
            None => None,
            Some((name, rest)) => Some(
                (
                    name,
                    match pieces::word_of(rest) {
                        Some((word, rest)) if word == "extends"@ => match pieces::word_of(rest) {
                            Some((parent, _)) => Some(parent),
                            None => None,
                        },
                        _ => None,
                    },
                ),
            ),
        },
    }
}

/// The name and the type that a line declares, if it is indented and has a
/// plain identifier before its first colon.
pub open spec fn typed_of(line: Seq<char>) -> Option<(Seq<char>, Seq<char>)> {
    if line.len() == 0 || line[0] != '\t' && line[0] != ' ' {
        None
    } else {
        match pieces::split_of(text::trimmed(line.drop_first(), Edge::White), ':') {
            None => None,
            Some((name, luau_type)) => {
                let name = text::trimmed(name, Edge::White);
                if pieces::plain_name(name) {
                    Some((name, text::trimmed(luau_type, Edge::White)))
                } else {
                    None
                }
            },
        }
    }
}

/// How far the reading of definitions has come.
#[verifier::ext_equal]
pub struct Reading {
    pub classes: Map<Seq<char>, ClassView>,
    /// The class whose body is being read.
    pub current: Option<(Seq<char>, ClassView)>,
}

impl Reading {
    /// The class being read is done.
    pub open spec fn closed(self) -> Reading {
        match self.current {
            Some((name, class)) => Reading {
                classes: self.classes.insert(name, class),
                current: None,
            },
            None => self,
        }
    }

    /// Takes one line: the end of a class, the header of one, or a member of
    /// the one being read. Anything else is skipped.
    pub open spec fn line(self, line: Seq<char>) -> Reading {
        if pieces::begins(line, "end"@) {
            self.closed()
        } else {
            match header_of(line) {
                Some((name, extends)) => Reading {
                    classes: self.closed().classes,
                    current: Some((name, ClassView { extends, members: Map::empty() })),
                },
                None => match (self.current, typed_of(line)) {
                    (Some((name, class)), Some((member, luau_type))) => Reading {
                        classes: self.classes,
                        current: Some(
                            (
                                name,
                                ClassView {
                                    extends: class.extends,
                                    members: class.members.insert(member, luau_type),
                                },
                            ),
                        ),
                    },
                    _ => self,
                },
            }
        }
    }
}

pub open spec fn read(lines: Seq<Seq<char>>) -> Reading
    decreases lines.len(),
{
    if lines.len() == 0 {
        Reading { classes: Map::empty(), current: None }
    } else {
        read(lines.drop_last()).line(lines.last())
    }
}

/// The classes that definitions declare.
pub open spec fn definitions_of(text: Seq<char>) -> Map<Seq<char>, ClassView> {
    read(pieces::lines_of(text)).closed().classes
}

/// What has been read, as plain values.
spec fn reading(list: Seq<Class>, current: Option<Class>) -> Reading {
    Reading {
        classes: classes_of(list),
        current: match current {
            Some(class) => Some((class.name@, class@)),
            None => None,
        },
    }
}

/// Parses `globalTypes.*.d.luau`: a header for each class, an indented line for
/// each of its members, and an `end`.
///
/// Two spellings of the header are accepted, since older releases write
/// `declare class X extends Y`. Anything unrecognised is skipped rather than
/// guessed at: a member this misses simply has no type to show, which is where
/// we started.
pub fn parse_definitions(text: &str) -> (r: Classes)
    ensures
        r@ == definitions_of(text@),
{
    let all = lines(text);
    let ghost views = pieces::lines_of(text@);
    let mut list: Vec<Class> = Vec::new();
    let mut current: Option<Class> = None;
    let mut i: usize = 0;
    proof {
        assert(views.take(0) =~= Seq::<Seq<char>>::empty());
    }
    while i < all.len()
        invariant
            i <= all@.len(),
            views == pieces::lines_of(text@),
            all@.map_values(|line: &str| line@) == views,
            reading(list@, current) == read(views.take(i as int)),
        decreases all@.len() - i,
    {
        let line = all[i];
        proof {
            assert(all@.map_values(|line: &str| line@)[i as int] == line@);
            assert(views.take(i + 1).drop_last() =~= views.take(i as int));
            assert(views.take(i + 1).last() == line@);
        }
        if strip_prefix(line, "end").is_some() {
            close(&mut list, &mut current);
        } else if let Some((name, extends)) = class_header(line) {
            close(&mut list, &mut current);
            current = Some(Class { name, extends, members: Vec::new() });
        } else if let Some((name, luau_type)) = member(line) {
            if let Some(class) = current {
                let mut class = class;
                let ghost held = class.members@;
                let typed = Typed { name, luau_type };
                assert(held.push(typed).drop_last() =~= held);
                class.members.push(typed);
                current = Some(class);
            } else {
                current = None;
            }
        }
        i = i + 1;
    }
    assert(views.take(views.len() as int) =~= views);
    close(&mut list, &mut current);
    Classes { list }
}

/// Puts the class being read among those that are done.
fn close(list: &mut Vec<Class>, current: &mut Option<Class>)
    ensures
        *final(current) is None,
        reading(final(list)@, *final(current)) == reading(old(list)@, *old(current)).closed(),
{
    match current.take() {
        Some(class) => {
            let ghost before = list@;
            assert(before.push(class).drop_last() =~= before);
            list.push(class);
        },
        None => {},
    }
}

fn class_header(line: &str) -> (r: Option<(String, Option<String>)>)
    ensures
        match (r, header_of(line@)) {
            (Some(a), Some(b)) => a.0@ == b.0 && text::view_of(a.1) == b.1,
            (None, None) => true,
            _ => false,
        },
{
    let rest = match strip_prefix(line, "declare extern type ") {
        Some(rest) => rest,
        None => match strip_prefix(line, "declare class ") {
            Some(rest) => rest,
            None => {
                return None;
            },
        },
    };
    match next_word(rest) {
        None => None,
        Some((name, rest)) => {
            let extends = match next_word(rest) {
                Some((word, rest)) => if same(word, "extends") {
                    match next_word(rest) {
                        Some((parent, _)) => Some(parent.to_owned()),
                        None => None,
                    }
                } else {
                    None
                },
                None => None,
            };
            Some((name.to_owned(), extends))
        },
    }
}

/// `\tName: Type` — indented, and a plain identifier before the colon.
fn member(line: &str) -> (r: Option<(String, String)>)
    ensures
        match (r, typed_of(line@)) {
            (Some(a), Some(b)) => a.0@ == b.0 && a.1@ == b.1,
            (None, None) => true,
            _ => false,
        },
{
    proof {
        reveal_strlit("\t");
        reveal_strlit(" ");
        pieces::lemma_one_char(line@, "\t"@, '\t');
        pieces::lemma_one_char(line@, " "@, ' ');
    }
    let body = match strip_prefix(line, "\t") {
        Some(body) => body,
        None => match strip_prefix(line, " ") {
            Some(body) => body,
            None => {
                return None;
            },
        },
    };
    match split_once(trim(body, Edge::White), ':') {
        None => None,
        Some((name, luau_type)) => {
            let name = trim(name, Edge::White);
            if is_name(name) {
                Some((name.to_owned(), trim(luau_type, Edge::White).to_owned()))
            } else {
                None
            }
        },
    }
}

#[derive(Debug)]
pub struct Documentation {
    pub documentation: String,
    pub learn_more_link: String,
}

/// What a key of the documentation says.
#[derive(Debug)]
pub struct Documented {
    pub key: String,
    pub says: Documentation,
}

/// Documentation, as texts.
pub struct DocumentationView {
    pub documentation: Seq<char>,
    pub learn_more_link: Seq<char>,
}

impl View for Documentation {
    type V = DocumentationView;

    open spec fn view(&self) -> DocumentationView {
        DocumentationView {
            documentation: self.documentation@,
            learn_more_link: self.learn_more_link@,
        }
    }
}

pub open spec fn docs_of(docs: Seq<Documented>) -> Map<Seq<char>, DocumentationView>
    decreases docs.len(),
{
    if docs.len() == 0 {
        Map::empty()
    } else {
        docs_of(docs.drop_last()).insert(docs.last().key@, docs.last().says@)
    }
}

#[derive(Debug)]
pub struct Api {
    pub classes: Classes,
    /// Of two of one key, the later stands.
    pub docs: Vec<Documented>,
}

/// The type of a member on a class, and the class that declares it: the class
/// itself or the nearest of its ancestors. At most `steps` classes are asked,
/// so that a class which names itself among its ancestors is not walked for
/// ever.
pub open spec fn member_of(
    classes: Map<Seq<char>, ClassView>,
    class: Seq<char>,
    member: Seq<char>,
    steps: nat,
) -> Option<MemberView>
    decreases steps,
{
    if steps == 0 || !classes.contains_key(class) {
        None
    } else if classes[class].members.contains_key(member) {
        Some(MemberView { declared_by: class, luau_type: classes[class].members[member] })
    } else {
        match classes[class].extends {
            Some(parent) => member_of(classes, parent, member, (steps - 1) as nat),
            None => None,
        }
    }
}

/// The key under which a member is documented.
pub open spec fn doc_key(declared_by: Seq<char>, member: Seq<char>) -> Seq<char> {
    "@roblox/globaltype/"@ + declared_by + "."@ + member
}

impl Api {
    /// A member of a class, as the definitions declare it.
    pub open spec fn declares(self, class: Seq<char>, member: Seq<char>) -> Option<MemberView> {
        member_of(self.classes@, class, member, self.classes.list@.len())
    }

    /// What is said about a member of the class that declares it.
    pub open spec fn says(self, declared_by: Seq<char>, member: Seq<char>) -> Option<
        DocumentationView,
    > {
        if docs_of(self.docs@).contains_key(doc_key(declared_by, member)) {
            Some(docs_of(self.docs@)[doc_key(declared_by, member)])
        } else {
            None
        }
    }

    /// What definitions declare, and what is said about it.
    pub fn new(definitions: &str, docs: Vec<Documented>) -> (r: Self)
        ensures
            r.classes@ == definitions_of(definitions@),
            r.docs == docs,
    {
        Api { classes: parse_definitions(definitions), docs }
    }

    /// The type of `member` on `class`, walking up the inheritance chain.
    pub fn member(&self, class: &str, member: &str) -> (r: Option<Member>)
        ensures
            match (r, self.declares(class@, member@)) {
                (Some(a), Some(b)) => a@ == b,
                (None, None) => true,
                _ => false,
            },
    {
        let mut name: &str = class;
        let mut steps: usize = self.classes.list.len();
        while steps > 0
            invariant
                steps <= self.classes.list@.len(),
                member_of(self.classes@, class@, member@, self.classes.list@.len()) == member_of(
                    self.classes@,
                    name@,
                    member@,
                    steps as nat,
                ),
            decreases steps,
        {
            let found = match self.classes.get(name) {
                Some(found) => found,
                None => {
                    return None;
                },
            };
            if let Some(luau_type) = found.get(member) {
                return Some(Member { declared_by: name.to_owned(), luau_type: luau_type.clone() });
            }
            match &found.extends {
                Some(parent) => {
                    name = parent.as_str();
                },
                None => {
                    return None;
                },
            }
            steps = steps - 1;
        }
        None
    }

    /// What Roblox's own documentation says about it.
    pub fn documentation(&self, declared_by: &str, member: &str) -> (r: Option<&Documentation>)
        ensures
            match (r, self.says(declared_by@, member@)) {
                (Some(a), Some(b)) => a@ == b,
                (None, None) => true,
                _ => false,
            },
    {
        let mut key = "@roblox/globaltype/".to_owned();
        key.append(declared_by);
        key.append(".");
        key.append(member);
        let mut i: usize = self.docs.len();
        assert(self.docs@.take(i as int) =~= self.docs@);
        while i > 0
            invariant
                i <= self.docs@.len(),
                key@ == doc_key(declared_by@, member@),
                docs_of(self.docs@).contains_key(key@) == docs_of(
                    self.docs@.take(i as int),
                ).contains_key(key@),
                docs_of(self.docs@).contains_key(key@) ==> docs_of(self.docs@)[key@] == docs_of(
                    self.docs@.take(i as int),
                )[key@],
            decreases i,
        {
            assert(self.docs@.take(i as int).drop_last() =~= self.docs@.take(i - 1));
            assert(self.docs@.take(i as int).last() == self.docs@[i - 1]);
            if same(self.docs[i - 1].key.as_str(), key.as_str()) {
                return Some(&self.docs[i - 1].says);
            }
            i = i - 1;
        }
        None
    }

    pub fn is_empty(&self) -> (r: bool)
        ensures
            r == (self.classes@ == Map::<Seq<char>, ClassView>::empty()),
    {
        proof {
            if self.classes.list@.len() > 0 {
                assert(self.classes@.contains_key(self.classes.list@.last().name@));
            } else {
                assert(self.classes@ =~= Map::<Seq<char>, ClassView>::empty());
            }
        }
        self.classes.list.len() == 0
    }
}

/// A member is said to be declared by a class only where that class declares
/// it, with that type.
pub proof fn law_members_are_declared_where_they_say(
    classes: Map<Seq<char>, ClassView>,
    class: Seq<char>,
    member: Seq<char>,
    steps: nat,
)
    requires
        member_of(classes, class, member, steps) is Some,
    ensures
        ({
            let found = member_of(classes, class, member, steps)->Some_0;
            &&& classes.contains_key(found.declared_by)
            &&& classes[found.declared_by].members.contains_key(member)
            &&& classes[found.declared_by].members[member] == found.luau_type
        }),
    decreases steps,
{
    if !classes[class].members.contains_key(member) {
        if let Some(parent) = classes[class].extends {
            law_members_are_declared_where_they_say(classes, parent, member, (steps - 1) as nat);
        }
    }
}

/// A class has whatever its parent has and it does not declare itself.
pub proof fn law_members_are_inherited(
    classes: Map<Seq<char>, ClassView>,
    class: Seq<char>,
    parent: Seq<char>,
    member: Seq<char>,
    steps: nat,
)
    requires
        classes.contains_key(class),
        classes[class].extends == Some(parent),
        !classes[class].members.contains_key(member),
    ensures
        member_of(classes, class, member, steps + 1) == member_of(classes, parent, member, steps),
{
}

/// A member of a class, if there are definitions and they declare it.
pub open spec fn known(api: Option<&Api>, class: Seq<char>, canonical: Seq<char>) -> Option<
    MemberView,
> {
    match api {
        Some(api) => api.declares(class, canonical),
        None => None,
    }
}

/// What is said about a member that is known.
pub open spec fn documented(
    api: Option<&Api>,
    member: Option<MemberView>,
    canonical: Seq<char>,
) -> Option<DocumentationView> {
    match (api, member) {
        (Some(api), Some(member)) => api.says(member.declared_by, canonical),
        _ => None,
    }
}

/// A member that may not be there, as texts.
pub open spec fn member_view(member: Option<Member>) -> Option<MemberView> {
    match member {
        Some(member) => Some(member@),
        None => None,
    }
}

pub fn know(api: Option<&Api>, class: &str, canonical: &str) -> (r: Option<Member>)
    ensures
        member_view(r) == known(api, class@, canonical@),
{
    match api {
        Some(api) => api.member(class, canonical),
        None => None,
    }
}

pub fn document<'a>(api: Option<&'a Api>, member: &Option<Member>, canonical: &str) -> (r: Option<
    &'a Documentation,
>)
    ensures
        match (r, documented(api, member_view(*member), canonical@)) {
            (Some(a), Some(b)) => a@ == b,
            (None, None) => true,
            _ => false,
        },
{
    match (api, member) {
        (Some(api), Some(member)) => api.documentation(member.declared_by.as_str(), canonical),
        _ => None,
    }
}

/// An event hands over fewer parameters than its type has characters.
pub proof fn lemma_few_parameters(luau_type: Seq<char>)
    ensures
        parameters_of(luau_type) matches Some(parameters) ==> parameters.len() < luau_type.len(),
{
    if let Some(rest) = pieces::stripped(luau_type, "RBXScriptSignal<"@) {
        reveal_strlit("RBXScriptSignal<");
        if let Some(inner) = pieces::unended(rest, ">"@) {
            let inner = text::trimmed(inner, Edge::White);
            text::lemma_trimmed_length(rest.take(rest.len() - ">"@.len()), Edge::White);
            let text = unwrapped(inner);
            lemma_segments_count(text, 0, 0);
            lemma_tidied_count(segments(text, 0, 0));
        }
    }
}

proof fn lemma_segments_count(text: Seq<char>, start: int, i: int)
    requires
        0 <= i,
    ensures
        segments(text, start, i).len() <= if i <= text.len() {
            text.len() - i + 1
        } else {
            1
        },
    decreases text.len() - i,
{
    if i < text.len() {
        lemma_segments_count(text, i + 1, i + 1);
        lemma_segments_count(text, start, i + 1);
    }
}

proof fn lemma_tidied_count(list: Seq<Seq<char>>)
    ensures
        tidied(list).len() <= list.len(),
    decreases list.len(),
{
    if list.len() > 0 {
        lemma_tidied_count(list.drop_first());
    }
}

/// Whether a text is one word: something, and no white space in it.
pub open spec fn one_word(text: Seq<char>) -> bool {
    text.len() > 0 && forall|i: int| 0 <= i < text.len() ==> !text::white(#[trigger] text[i])
}

/// A class's header gives its name and what it extends, in either spelling,
/// whatever follows.
pub proof fn law_a_header_is_read(name: Seq<char>, parent: Seq<char>, rest: Seq<char>)
    requires
        one_word(name),
        one_word(parent),
        rest.len() > 0 ==> text::white(rest[0]),
    ensures
        header_of("declare class "@ + name + " extends "@ + parent + rest) == Some(
            (name, Some(parent)),
        ),
        header_of("declare extern type "@ + name + " extends "@ + parent + rest) == Some(
            (name, Some(parent)),
        ),
        header_of("declare class "@ + name) == Some((name, None::<Seq<char>>)),
        header_of("declare extern type "@ + name) == Some((name, None::<Seq<char>>)),
{
    reveal_strlit("declare class ");
    reveal_strlit("declare extern type ");
    reveal_strlit(" extends ");
    reveal_strlit("extends");
    let class = "declare class "@;
    let outer = "declare extern type "@;
    let tail = " extends "@ + parent + rest;
    assert(class[8] == 'c' && outer[8] == 'e');
    assert(one_word("extends"@));
    lemma_lead(class, name + tail);
    lemma_lead(outer, name + tail);
    lemma_lead(class, name);
    lemma_lead(outer, name);
    assert(class + name + " extends "@ + parent + rest =~= class + (name + tail));
    assert(outer + name + " extends "@ + parent + rest =~= outer + (name + tail));
    assert(!pieces::begins(class + (name + tail), outer)) by {
        assert((class + (name + tail)).take(outer.len() as int)[8] == 'c'
            || (class + (name + tail)).len() < outer.len());
    }
    assert(!pieces::begins(class + name, outer)) by {
        assert((class + name).take(outer.len() as int)[8] == 'c' || (class + name).len()
            < outer.len());
    }
    lemma_word(Seq::empty(), name, tail);
    lemma_word(Seq::empty(), name, Seq::empty());
    assert(Seq::<char>::empty() + name + tail =~= name + tail);
    assert(Seq::<char>::empty() + name + Seq::<char>::empty() =~= name);
    let gap = seq![' '];
    assert(text::white(' '));
    lemma_word(gap, "extends"@, gap + parent + rest);
    assert(gap + "extends"@ + (gap + parent + rest) =~= tail);
    lemma_word(gap, parent, rest);
    lemma_no_word();
}

/// What begins with a text is that text and the rest.
proof fn lemma_lead(lead: Seq<char>, rest: Seq<char>)
    ensures
        pieces::stripped(lead + rest, lead) == Some(rest),
{
    assert((lead + rest).take(lead.len() as int) =~= lead);
    assert((lead + rest).skip(lead.len() as int) =~= rest);
}

/// Nothing has no words.
proof fn lemma_no_word()
    ensures
        pieces::word_of(Seq::<char>::empty()) is None,
{
    let rest = Seq::<char>::empty().skip(text::leading(Seq::<char>::empty(), Edge::White));
    assert(rest.len() == 0);
}

/// The first word of a text is what stands between white space and white space.
proof fn lemma_word(gap: Seq<char>, word: Seq<char>, tail: Seq<char>)
    requires
        forall|i: int| 0 <= i < gap.len() ==> text::white(#[trigger] gap[i]),
        one_word(word),
        tail.len() > 0 ==> text::white(tail[0]),
    ensures
        pieces::word_of(gap + word + tail) == Some((word, tail)),
{
    let whole = gap + word + tail;
    assert forall|i: int| 0 <= i < gap.len() implies Edge::White.takes(#[trigger] whole[i]) by {
        assert(whole[i] == gap[i]);
    }
    assert(whole[gap.len() as int] == word[0]);
    text::lemma_leading(whole, Edge::White, gap.len() as int);
    let rest = whole.skip(gap.len() as int);
    assert(rest =~= word + tail);
    assert forall|i: int| 0 <= i < word.len() implies !text::white(#[trigger] rest[i]) by {
        assert(rest[i] == word[i]);
    }
    pieces::lemma_solid_is(rest, word.len() as int);
    assert(rest.take(word.len() as int) =~= word);
    assert(rest.skip(word.len() as int) =~= tail);
}

/// An indented line that has a name, a colon and a type declares that member with
/// that type, whatever colons the type holds.
pub proof fn law_a_member_line_is_read(name: Seq<char>, luau_type: Seq<char>)
    requires
        pieces::plain_name(name),
        luau_type.len() > 0,
        !text::white(luau_type[0]),
        !text::white(luau_type.last()),
    ensures
        typed_of("\t"@ + name + ": "@ + luau_type) == Some((name, luau_type)),
{
    reveal_strlit("\t");
    reveal_strlit(": ");
    let line = "\t"@ + name + ": "@ + luau_type;
    let inner = name + ": "@ + luau_type;
    assert(line.drop_first() =~= inner);
    assert(line[0] == '\t');
    assert forall|i: int| 0 <= i < name.len() implies !text::white(#[trigger] name[i]) && name[i]
        != ':' by {
        assert(pieces::name_part(name[i]));
    }
    assert(inner[0] == name[0] && inner.last() == luau_type.last());
    text::lemma_untrimmed(inner, Edge::White);
    assert forall|i: int| 0 <= i < name.len() implies #[trigger] inner[i] != ':' by {
        assert(inner[i] == name[i]);
    }
    assert(inner[name.len() as int] == ':');
    pieces::lemma_first_at_is(inner, ':', name.len() as int);
    assert(inner.take(name.len() as int) =~= name);
    let after = inner.skip(name.len() as int + 1);
    assert(after =~= seq![' '] + luau_type);
    assert(after.drop_first() =~= luau_type);
    text::lemma_trimmed_first(after, Edge::White);
    text::lemma_untrimmed(luau_type, Edge::White);
    assert(!text::white(name[0]) && !text::white(name[name.len() - 1]));
    text::lemma_untrimmed(name, Edge::White);
}

/// Whether a line belongs to the body of a class: it neither ends it nor begins
/// another.
pub open spec fn in_body(line: Seq<char>) -> bool {
    !pieces::begins(line, "end"@) && header_of(line) is None
}

/// Between its header and its `end` a class has a member for each line that
/// declares one, with the type of the last line that does, and it extends what its
/// header says, whatever is declared before it.
pub proof fn law_a_class_has_the_members_of_its_body(
    before: Seq<Seq<char>>,
    header: Seq<char>,
    body: Seq<Seq<char>>,
    end: Seq<char>,
)
    requires
        header_of(header) is Some,
        !pieces::begins(header, "end"@),
        forall|i: int| 0 <= i < body.len() ==> in_body(#[trigger] body[i]),
        pieces::begins(end, "end"@),
    ensures
        ({
            let (name, extends) = header_of(header)->Some_0;
            let classes = read(before + seq![header] + body + seq![end]).closed().classes;
            &&& classes.contains_key(name)
            &&& classes[name].extends == extends
            &&& forall|i: int|
                #![trigger body[i]]
                0 <= i < body.len() ==> match typed_of(body[i]) {
                    Some((member, luau_type)) => {
                        &&& classes[name].members.contains_key(member)
                        &&& (forall|j: int|
                            i < j < body.len() && typed_of(#[trigger] body[j]) is Some ==> typed_of(
                                body[j],
                            )->Some_0.0 != member) ==> classes[name].members[member] == luau_type
                    },
                    None => true,
                }
            &&& forall|other: Seq<char>|
                other != name ==> #[trigger] classes.contains_key(other) == read(
                    before,
                ).closed().classes.contains_key(other)
        }),
{
    let whole = before + seq![header] + body + seq![end];
    lemma_body(before, header, body);
    assert(whole.drop_last() =~= before + seq![header] + body);
    assert(whole.last() == end);
}

proof fn lemma_body(before: Seq<Seq<char>>, header: Seq<char>, body: Seq<Seq<char>>)
    requires
        header_of(header) is Some,
        !pieces::begins(header, "end"@),
        forall|i: int| 0 <= i < body.len() ==> in_body(#[trigger] body[i]),
    ensures
        ({
            let (name, extends) = header_of(header)->Some_0;
            let reading = read(before + seq![header] + body);
            &&& reading.classes == read(before).closed().classes
            &&& reading.current matches Some((called, class)) && called == name && class.extends
                == extends && forall|i: int|
                #![trigger body[i]]
                0 <= i < body.len() ==> match typed_of(body[i]) {
                    Some((member, luau_type)) => {
                        &&& class.members.contains_key(member)
                        &&& (forall|j: int|
                            i < j < body.len() && typed_of(#[trigger] body[j]) is Some ==> typed_of(
                                body[j],
                            )->Some_0.0 != member) ==> class.members[member] == luau_type
                    },
                    None => true,
                }
        }),
    decreases body.len(),
{
    let lines = before + seq![header] + body;
    if body.len() == 0 {
        assert(lines.drop_last() =~= before);
        assert(lines.last() == header);
    } else {
        let rest = body.drop_last();
        assert forall|i: int| 0 <= i < rest.len() implies in_body(#[trigger] rest[i]) by {
            assert(rest[i] == body[i]);
        }
        lemma_body(before, header, rest);
        assert(lines.drop_last() =~= before + seq![header] + rest);
        assert(lines.last() == body[body.len() - 1]);
        assert(in_body(body[body.len() - 1]));
        let earlier = read(before + seq![header] + rest).current->Some_0.1;
        let class = read(lines).current->Some_0.1;
        let last = body[body.len() - 1];
        assert forall|i: int|
            #![trigger body[i]]
            0 <= i < body.len() && typed_of(body[i]) is Some implies class.members.contains_key(
            typed_of(body[i])->Some_0.0,
        ) && ((forall|j: int|
            i < j < body.len() && typed_of(#[trigger] body[j]) is Some ==> typed_of(
                body[j],
            )->Some_0.0 != typed_of(body[i])->Some_0.0)
            ==> class.members[typed_of(body[i])->Some_0.0] == typed_of(body[i])->Some_0.1) by {
            if i < rest.len() {
                assert(rest[i] == body[i]);
                let member = typed_of(body[i])->Some_0.0;
                if forall|j: int|
                    i < j < body.len() && typed_of(#[trigger] body[j]) is Some ==> typed_of(
                        body[j],
                    )->Some_0.0 != member {
                    assert forall|j: int|
                        i < j < rest.len() && typed_of(#[trigger] rest[j]) is Some implies typed_of(
                        rest[j],
                    )->Some_0.0 != member by {
                        assert(rest[j] == body[j]);
                    }
                    assert(typed_of(last) is Some ==> typed_of(last)->Some_0.0 != member);
                }
            }
        }
    }
}

} // verus!
