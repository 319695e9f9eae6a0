//! Completion — the feature the whole project is for.
//!
//! | Trigger | Source |
//! | --- | --- |
//! | `<` and `<Fra` | the creatable Roblox classes, plus names bound in the file |
//! | `<TextLabel ` | that class's properties and events, alias-aware |
//! | `</` | the innermost open tag |
//! | inside `{ … }` | forwarded to luau-lsp |
//!
//! Everything here runs off [`crate::scan`], never the tree, so `<Fra` completes
//! while the file does not compile — which is the only state that matters, since
//! a file being typed is never finished.

use vstd::prelude::*;
use vstd::string::*;

use luaux::config::Config;

use crate::api::{self, document as documentation_of, know, Api, Documentation, Member};
use crate::classes::{self, is_class, is_event};
use crate::decimal::{self, decimal};
use crate::document::{self, edit, Document};
use crate::json::{self, Json, JsonView};
use crate::line_index;
use crate::naming::{self, Named, NamedView};
use crate::pieces::{self, has_char, is_name};
use crate::project::Project;
use crate::prose::{self, around, join, markdown, replace};
use crate::resolving::{self, names_in, resolve_class};
use crate::scan::{self, end_of, Context, Scan};
use crate::settings;
use crate::text::{self, is_before, length, same, slice, Edge};

verus! {

/// LSP `CompletionItemKind`s, named so the numbers do not float free.
pub const FUNCTION: u64 = 3;

pub const CLASS: u64 = 7;

pub const PROPERTY: u64 = 10;

pub const EVENT: u64 = 23;

/// LSP `InsertTextFormat.Snippet`.
pub const SNIPPET: u64 = 2;

/// Roblox's documentation with its HTML as markdown, one tag after the other.
pub open spec fn markdown_of(text: Seq<char>) -> Seq<char> {
    let code = prose::replaced(prose::replaced(text, "<code>"@, "`"@), "</code>"@, "`"@);
    let bold = prose::replaced(prose::replaced(code, "<b>"@, "**"@), "</b>"@, "**"@);
    let italic = prose::replaced(prose::replaced(bold, "<i>"@, "*"@), "</i>"@, "*"@);
    prose::replaced(prose::replaced(italic, "<br/>"@, "\n"@), "<br>"@, "\n"@)
}

/// Roblox writes its documentation with a few HTML tags in it. Shared with
/// [`crate::hover`], which shows the same text.
pub fn html_to_markdown(text: &str) -> (r: String)
    ensures
        r@ == markdown_of(text@),
{
    let text = replace(text, "<code>", "`");
    let text = replace(text.as_str(), "</code>", "`");
    let text = replace(text.as_str(), "<b>", "**");
    let text = replace(text.as_str(), "</b>", "**");
    let text = replace(text.as_str(), "<i>", "*");
    let text = replace(text.as_str(), "</i>", "*");
    let text = replace(text.as_str(), "<br/>", "\n");
    replace(text.as_str(), "<br>", "\n")
}

/// A link to more, if there is one.
pub open spec fn learn_more(link: Seq<char>) -> Seq<char> {
    if link.len() == 0 {
        Seq::empty()
    } else {
        prose::between("\n\n[Learn more]("@, link, ")"@)
    }
}

pub fn link(learn_more_link: &str) -> (r: String)
    ensures
        r@ == learn_more(learn_more_link@),
{
    if learn_more_link.is_empty() {
        String::new()
    } else {
        around("\n\n[Learn more](", learn_more_link, ")")
    }
}

/// A member's type, then what Roblox says it does.
pub open spec fn described(
    member: Option<api::MemberView>,
    docs: api::DocumentationView,
) -> Seq<char> {
    let head = match member {
        Some(member) => prose::between("```luau\n"@, member.luau_type, "\n```\n\n"@),
        None => Seq::empty(),
    };
    head + markdown_of(docs.documentation) + learn_more(docs.learn_more_link)
}

/// The type, then what Roblox says it does.
fn describe(member: &Option<Member>, docs: &Documentation) -> (r: String)
    ensures
        r@ == described(api::member_view(*member), docs@),
{
    let mut text = match member {
        Some(member) => around("```luau\n", member.luau_type.as_str(), "\n```\n\n"),
        None => String::new(),
    };
    // The docs are HTML fragments — `<code>GuiObject</code>` and the like —
    // which markdown renders as invisible tags rather than as code.
    let said = html_to_markdown(docs.documentation.as_str());
    text.append(said.as_str());
    let more = link(docs.learn_more_link.as_str());
    text.append(more.as_str());
    text
}

/// A parameter of a handler, as a tab stop.
pub open spec fn tab_stop(index: nat, luau_type: Seq<char>) -> Seq<char> {
    prose::between("${"@, decimal::decimal_of(index), ":p"@) + prose::between(
        decimal::decimal_of(index),
        "}: "@,
        luau_type,
    )
}

/// `function(p1: number, p2: number) end`, as a snippet.
pub open spec fn handler_of(parameters: Seq<Seq<char>>) -> Seq<char> {
    prose::between(
        "function("@,
        prose::joined(
            Seq::new(parameters.len(), |i: int| tab_stop((i + 1) as nat, parameters[i])),
            ", "@,
        ),
        ") $"@,
    ) + decimal::decimal_of(parameters.len() + 1) + " end"@
}

/// `function(p1: number, p2: number) end`, as a snippet.
///
/// The definitions carry parameter *types* but no names — Roblox does not
/// publish them for what an event fires — so the names are placeholders, and
/// tab stops so the first thing you do is type over them. Inventing plausible
/// names would be worse: `x, y` is right for `MouseEnter` and wrong for most
/// of the rest.
pub fn handler(parameters: &[String]) -> (r: String)
    requires
        parameters@.len() < usize::MAX,
    ensures
        r@ == handler_of(api::strings(parameters@)),
{
    let ghost all = api::strings(parameters@);
    let mut named: Vec<String> = Vec::new();
    let mut i: usize = 0;
    while i < parameters.len()
        invariant
            i <= parameters@.len() < usize::MAX,
            all == api::strings(parameters@),
            named@.len() == i,
            forall|j: int| 0 <= j < i ==> (#[trigger] named@[j])@ == tab_stop((j + 1) as nat, all[j]),
        decreases parameters@.len() - i,
    {
        let index = decimal(i + 1);
        let mut stop = around("${", index.as_str(), ":p");
        let typed = around(index.as_str(), "}: ", parameters[i].as_str());
        stop.append(typed.as_str());
        named.push(stop);
        i = i + 1;
    }
    assert(named@.map_values(|one: String| one@) =~= Seq::new(
        all.len(),
        |i: int| tab_stop((i + 1) as nat, all[i]),
    ));
    let list = join(&named, ", ");
    let mut out = around("function(", list.as_str(), ") $");
    let last = decimal(parameters.len() + 1);
    out.append(last.as_str());
    out.append(" end");
    out
}

/// One entry of a completion list.
pub open spec fn entry_json(
    label: Seq<char>,
    kind: u64,
    detail: Seq<char>,
    sort: Seq<char>,
    edit: JsonView,
) -> JsonView {
    JsonView::object().with("label"@, JsonView::Text(label)).with("kind"@, JsonView::number(kind)).with(
        "detail"@,
        JsonView::Text(detail),
    ).with("sortText"@, JsonView::Text(sort)).with("textEdit"@, edit)
}

fn entry(label: &str, kind: u64, detail: &str, sort: &str, edit: Json) -> (r: Json)
    ensures
        r@ == entry_json(label@, kind, detail@, sort@, edit@),
{
    Json::object().with("label", Json::text(label)).with("kind", Json::number(kind)).with(
        "detail",
        Json::text(detail),
    ).with("sortText", Json::text(sort)).with("textEdit", edit)
}

/// One text after another.
fn after(group: &str, label: &str) -> (r: String)
    ensures
        r@ == group@ + label@,
{
    let mut out = group.to_owned();
    out.append(label);
    out
}

/// An entry that writes its own label. Grouped first, then alphabetical inside
/// the group.
pub open spec fn item_json(
    label: Seq<char>,
    kind: u64,
    detail: Seq<char>,
    group: Seq<char>,
    range: JsonView,
) -> JsonView {
    entry_json(label, kind, detail, group + label, document::edit_json(range, label))
}

fn item(label: &str, kind: u64, detail: &str, group: &str, range: &Json) -> (r: Json)
    ensures
        r@ == item_json(label@, kind, detail@, group@, range@),
{
    // An explicit range rather than a prefix: `Foo.Bar` and lowercase aliases
    // both fall outside what an editor guesses a word to be.
    let sort = after(group, label);
    entry(label, kind, detail, sort.as_str(), edit(range.copy(), label))
}

/// A whole list of entries.
pub open spec fn list_json(items: Seq<JsonView>) -> JsonView {
    JsonView::object().with("isIncomplete"@, JsonView::Bool(false)).with(
        "items"@,
        JsonView::Array(items),
    )
}

fn list(items: Vec<Json>) -> (r: Json)
    ensures
        r@ == list_json(json::list_view(items@)),
{
    Json::object().with("isIncomplete", Json::Bool(false)).with("items", Json::Array(items))
}

/// Luau's reserved words, which cannot be bare table keys.
///
/// Kept here rather than taken from the lexer, which folds keywords into `Name`
/// deliberately — only a handful matter to LuauX detection, and which ones are
/// *reserved* is a different question from which ones it needs to recognise.
/// The contextual keywords (`type`, `export`, `continue`) are absent on purpose:
/// they are legal identifiers, and legal keys.
pub open spec fn reserved(label: Seq<char>) -> bool {
    label == "and"@ || label == "break"@ || label == "do"@ || label == "else"@
        || label == "elseif"@ || label == "end"@ || label == "false"@ || label == "for"@
        || label == "function"@ || label == "if"@ || label == "in"@ || label == "local"@
        || label == "nil"@ || label == "not"@ || label == "or"@ || label == "repeat"@
        || label == "return"@ || label == "then"@ || label == "true"@ || label == "until"@
        || label == "while"@
}

fn is_reserved(label: &str) -> (r: bool)
    ensures
        r == reserved(label@),
{
    same(label, "and") || same(label, "break") || same(label, "do") || same(label, "else")
        || same(label, "elseif") || same(label, "end") || same(label, "false")
        || same(label, "for") || same(label, "function") || same(label, "if") || same(label, "in")
        || same(label, "local") || same(label, "nil") || same(label, "not") || same(label, "or")
        || same(label, "repeat") || same(label, "return") || same(label, "then")
        || same(label, "true") || same(label, "until") || same(label, "while")
}

/// Whether a key has a spelling as an attribute, or as a tag.
pub open spec fn writable(label: Seq<char>) -> bool {
    pieces::plain_name(label) && !reserved(label)
}

fn writable_as_an_attribute(label: &str) -> (r: bool)
    ensures
        r == writable(label@),
{
    is_name(label) && !is_reserved(label)
}

/// An entry with the documentation that came with it.
pub open spec fn with_documentation(entry: JsonView, documentation: Option<JsonView>) -> JsonView {
    match documentation {
        Some(documentation) => entry.with("documentation"@, documentation),
        None => entry,
    }
}

fn add_documentation(entry: Json, documentation: Option<&Json>) -> (r: Json)
    ensures
        r@ == with_documentation(
            entry@,
            match documentation {
                Some(documentation) => Some(documentation@),
                None => None,
            },
        ),
{
    match documentation {
        Some(documentation) => entry.with("documentation", documentation.copy()),
        None => entry,
    }
}

/// What an item says of itself, or what to say instead.
pub open spec fn detail_of(item: JsonView, otherwise: Seq<char>) -> Seq<char> {
    match item.get_str("detail"@) {
        Some(detail) => detail,
        None => otherwise,
    }
}

fn detail<'a>(item: &'a Json, otherwise: &'a str) -> (r: &'a str)
    ensures
        r@ == detail_of(item@, otherwise@),
{
    match item.get_str("detail") {
        Some(detail) => detail,
        None => otherwise,
    }
}

/// One of luau-lsp's items as an attribute, if it is an expected key that can be
/// written as one.
pub open spec fn prop_json(item: JsonView, range: JsonView, snippets: bool) -> Option<JsonView> {
    match (item.get_str("sortText"@), item.get_str("label"@)) {
        (Some(sort), Some(label)) => if sort == "1"@ && writable(label) {
            let takes_a_function = item.get_u64("kind"@) == Some(FUNCTION);
            let snippet = takes_a_function && snippets;
            let entry = entry_json(
                label,
                if takes_a_function {
                    EVENT
                } else {
                    PROPERTY
                },
                detail_of(item, "prop"@),
                "0"@ + label,
                document::edit_json(
                    range,
                    if snippet {
                        label + "={function() $1 end}"@
                    } else {
                        label
                    },
                ),
            );
            let entry = with_documentation(entry, item.get("documentation"@));
            Some(
                if snippet {
                    entry.with("insertTextFormat"@, JsonView::number(SNIPPET))
                } else {
                    entry
                },
            )
        } else {
            None
        },
        _ => None,
    }
}

fn prop(item: &Json, range: &Json, snippets: bool) -> (r: Option<Json>)
    ensures
        match (r, prop_json(item@, range@, snippets)) {
            (Some(a), Some(b)) => a@ == b,
            (None, None) => true,
            _ => false,
        },
{
    let (sort, label) = match (item.get_str("sortText"), item.get_str("label")) {
        (Some(sort), Some(label)) => (sort, label),
        _ => {
            return None;
        },
    };
    // A key that is not a plain name has no markup spelling at all:
    // `["data-x"]` cannot be written as an attribute, and `end` as one would
    // compile to `{ end = x }`, which is not Luau.
    if !same(sort, "1") || !writable_as_an_attribute(label) {
        return None;
    }
    // luau-lsp's own kind, rather than reading the type text back: a prop that
    // takes a function is completed as one, the way an event is on an intrinsic.
    let takes_a_function = match item.get_u64("kind") {
        Some(kind) => kind == FUNCTION,
        None => false,
    };
    // The parameters are in the type, not in the definitions, so the body is
    // left empty rather than invented — unlike an intrinsic's event, where
    // Roblox publishes what a handler is handed.
    let snippet = takes_a_function && snippets;
    let new = if snippet {
        after(label, "={function() $1 end}")
    } else {
        label.to_owned()
    };
    let kind: u64 = if takes_a_function {
        EVENT
    } else {
        PROPERTY
    };
    let sort = after("0", label);
    let written = entry(
        label,
        kind,
        detail(item, "prop"),
        sort.as_str(),
        edit(range.copy(), new.as_str()),
    );
    let written = add_documentation(written, item.get("documentation"));
    Some(
        if snippet {
            written.with("insertTextFormat", Json::number(SNIPPET))
        } else {
            written
        },
    )
}

/// Those of luau-lsp's items that are attributes.
pub open spec fn kept_props(items: Seq<JsonView>, range: JsonView, snippets: bool) -> Seq<JsonView>
    decreases items.len(),
{
    if items.len() == 0 {
        Seq::empty()
    } else {
        let before = kept_props(items.drop_last(), range, snippets);
        match prop_json(items.last(), range, snippets) {
            Some(entry) => before.push(entry),
            None => before,
        }
    }
}

/// luau-lsp's expected keys for a component's props table, as markup attributes.
///
/// Only the keys: everything else it offers at that position is the ordinary
/// Luau scope — `print`, `game`, every local — which is right for a table
/// constructor and wrong for an attribute list. It marks the expected ones with
/// `sortText` "1" and buckets the rest from "3" down, and that is the only
/// signal available. If it ever stops, this returns nothing rather than nine
/// hundred globals inside a tag.
///
/// `range` covers the partial name already typed, as it does for an intrinsic —
/// an editor's own idea of a word does not survive `Foo.Bar` or a lowercase
/// alias.
pub fn props(items: &[Json], range: &Json, snippets: bool) -> (r: Json)
    ensures
        r@ == list_json(kept_props(json::list_view(items@), range@, snippets)),
{
    let mut out: Vec<Json> = Vec::new();
    let mut i: usize = 0;
    while i < items.len()
        invariant
            i <= items@.len(),
            json::list_view(out@) == kept_props(
                json::list_view(items@.take(i as int)),
                range@,
                snippets,
            ),
        decreases items@.len() - i,
    {
        proof {
            assert(items@.take(i + 1) =~= items@.take(i as int).push(items@[i as int]));
            json::lemma_list_view_push(items@.take(i as int), items@[i as int]);
            assert(json::list_view(items@.take(i + 1)).drop_last() =~= json::list_view(
                items@.take(i as int),
            ));
        }
        if let Some(entry) = prop(&items[i], range, snippets) {
            proof {
                json::lemma_list_view_push(out@, entry);
            }
            out.push(entry);
        }
        i = i + 1;
    }
    assert(items@.take(i as int) =~= items@);
    list(out)
}

/// One of luau-lsp's items as a tag name, if it can be written as one.
pub open spec fn tag_member_json(item: JsonView, range: JsonView) -> Option<JsonView> {
    match item.get_str("label"@) {
        Some(label) => if writable(label) {
            Some(
                with_documentation(
                    item_json(label, FUNCTION, detail_of(item, "member"@), "0"@, range),
                    item.get("documentation"@),
                ),
            )
        } else {
            None
        },
        None => None,
    }
}

/// Those of luau-lsp's items that are tag names.
pub open spec fn kept_members(items: Seq<JsonView>, range: JsonView) -> Seq<JsonView>
    decreases items.len(),
{
    if items.len() == 0 {
        Seq::empty()
    } else {
        let before = kept_members(items.drop_last(), range);
        match tag_member_json(items.last(), range) {
            Some(entry) => before.push(entry),
            None => before,
        }
    }
}

/// The child's members of `App`, as tag names.
///
/// Rebuilt rather than relayed, for the same reason [`props`] rebuilds: the
/// child's `textEdit` is against the generated file, and the range that matters
/// here is the one segment of the tag name the cursor is in.
pub fn members(items: &[Json], range: &Json) -> (r: Json)
    ensures
        r@ == list_json(kept_members(json::list_view(items@), range@)),
{
    let mut out: Vec<Json> = Vec::new();
    let mut i: usize = 0;
    while i < items.len()
        invariant
            i <= items@.len(),
            json::list_view(out@) == kept_members(json::list_view(items@.take(i as int)), range@),
        decreases items@.len() - i,
    {
        let one = &items[i];
        proof {
            assert(items@.take(i + 1) =~= items@.take(i as int).push(items@[i as int]));
            json::lemma_list_view_push(items@.take(i as int), items@[i as int]);
            assert(json::list_view(items@.take(i + 1)).drop_last() =~= json::list_view(
                items@.take(i as int),
            ));
        }
        // A key that is not a plain name cannot be written as a tag at all:
        // `App["my-thing"]` has no markup spelling.
        if let Some(label) = one.get_str("label") {
            if writable_as_an_attribute(label) {
                let entry = add_documentation(
                    item(label, FUNCTION, detail(one, "member"), "0", range),
                    one.get("documentation"),
                );
                proof {
                    json::lemma_list_view_push(out@, entry);
                }
                out.push(entry);
            }
        }
        i = i + 1;
    }
    assert(items@.take(i as int) =~= items@);
    list(out)
}

/// Whether a `>` stands at an offset of a file, past any whitespace.
pub open spec fn closes_at(source: Seq<char>, at: int) -> bool {
    let rest = text::cut(source, at, text::bytes(source).len() as int);
    let n = text::leading(rest, Edge::White);
    n < rest.len() && rest[n] == '>'
}

fn closes(source: &str, at: usize) -> (r: bool)
    requires
        text::cuttable(source@, at as int, text::bytes(source@).len() as int),
    ensures
        r == closes_at(source@, at as int),
{
    let rest = slice(source, at, length(source));
    for c in it: rest.chars()
        invariant
            it.seq() == rest@,
            forall|i: int| 0 <= i < it.index() ==> Edge::White.takes(#[trigger] rest@[i]),
            rest@ == text::cut(source@, at as int, text::bytes(source@).len() as int),
    {
        let ghost k = it.index();
        assert(rest@[k] == c);
        if !Edge::White.strips(c) {
            proof {
                text::lemma_leading(rest@, Edge::White, k);
            }
            return c == '>';
        }
    }
    proof {
        text::lemma_leading(rest@, Edge::White, rest@.len() as int);
    }
    false
}

/// What `</` completes to.
pub open spec fn close_json(
    source: Seq<char>,
    start: int,
    prefix: Seq<char>,
    name: Seq<char>,
) -> JsonView {
    let end = start + text::bytes(prefix).len();
    list_json(
        seq![
            entry_json(
                if name.len() == 0 {
                    "</>"@
                } else {
                    name
                },
                CLASS,
                "close this element"@,
                "0"@,
                document::edit_json(
                    document::range_at(source, start, end),
                    if closes_at(source, end) {
                        name
                    } else {
                        name + ">"@
                    },
                ),
            ),
        ],
    )
}

/// `</` completes to whatever is actually open, which is the only useful answer.
fn close_tag(document: &Document, start: usize, prefix: &str, name: &str) -> (r: Json)
    requires
        document.wf(),
        scan::stands(document.text@, start, prefix@),
    ensures
        r@ == close_json(document.text@, start as int, prefix@, name@),
{
    let end: usize = end_of(document.text.as_str(), start, prefix);
    let range = document.range_at(start, end);
    // Do not add a `>` that is already there.
    let new = if closes(document.text.as_str(), end) {
        name.to_owned()
    } else {
        after(name, ">")
    };
    let label = if name.is_empty() {
        "</>"
    } else {
        name
    };
    let entry = entry(label, CLASS, "close this element", "0", edit(range, new.as_str()));
    let mut items: Vec<Json> = Vec::new();
    proof {
        json::lemma_list_view_push(items@, entry);
    }
    items.push(entry);
    list(items)
}

/// Whether a character is upper case.
pub uninterp spec fn uppercase(c: char) -> bool;

/// [`char::is_uppercase`]: whether a character has Unicode's `Uppercase`
/// property.
#[verifier::external_body]
fn is_uppercase(c: char) -> (r: bool)
    ensures
        r == uppercase(c),
{
    c.is_uppercase()
}

/// Whether a name could be a component's.
pub open spec fn componentlike(name: Seq<char>) -> bool {
    name.len() > 0 && uppercase(name[0]) && !classes::creatable(name)
}

/// Whether texts are in byte order, each once.
pub open spec fn in_order(names: Seq<String>) -> bool {
    forall|i: int, j: int|
        0 <= i < j < names.len() ==> text::precedes((#[trigger] names[i])@, (#[trigger] names[j])@)
}

/// Whether these are the names bound in a file that could be components.
pub open spec fn component_names(source: Seq<char>, names: Seq<String>) -> bool {
    &&& in_order(names)
    &&& resolving::as_set(names) == resolving::names_of(source).filter(
        |name: Seq<char>| componentlike(name),
    )
}

/// Puts a name in its place among others, unless it is there already.
fn insert_in_order(names: &mut Vec<String>, name: String)
    requires
        in_order(old(names)@),
    ensures
        in_order(final(names)@),
        resolving::as_set(final(names)@) == resolving::as_set(old(names)@).insert(name@),
{
    let ghost before = names@;
    let ghost new = name@;
    let mut i: usize = 0;
    while i < names.len() && is_before(names[i].as_str(), name.as_str())
        invariant
            names@ == before,
            i <= names@.len(),
            forall|j: int| 0 <= j < i ==> text::precedes((#[trigger] names@[j])@, name@),
        decreases names@.len() - i,
    {
        i = i + 1;
    }
    if i < names.len() && same(names[i].as_str(), name.as_str()) {
        assert(resolving::as_set(names@) =~= resolving::as_set(before).insert(new)) by {
            assert(before[i as int]@ == new);
        }
        return;
    }
    names.insert(i, name);
    proof {
        let after = names@;
        assert(after == before.insert(i as int, name));
        assert forall|j: int, k: int| 0 <= j < k < after.len() implies text::precedes(
            (#[trigger] after[j])@,
            (#[trigger] after[k])@,
        ) by {
            if j < i && k == i {
                assert(after[j] == before[j]);
            } else if j == i {
                assert(after[k] == before[k - 1]);
                text::lemma_precedes(before[i as int]@, new, new);
                text::lemma_precedes(new, before[i as int]@, before[k - 1]@);
                if k - 1 > i {
                    assert(text::precedes(before[i as int]@, before[k - 1]@));
                }
            } else {
                assert(after[j] == before[if j < i { j } else { j - 1 }]);
                assert(after[k] == before[if k < i { k } else { k - 1 }]);
            }
        }
        assert forall|one: Seq<char>| resolving::as_set(after).contains(one) == #[trigger]
            resolving::as_set(before).insert(new).contains(one) by {
            if resolving::as_set(after).contains(one) {
                let j = choose|j: int| 0 <= j < after.len() && (#[trigger] after[j])@ == one;
                if j < i {
                    assert(before[j]@ == one);
                } else if j > i {
                    assert(before[j - 1]@ == one);
                }
            }
            if resolving::as_set(before).contains(one) {
                let j = choose|j: int| 0 <= j < before.len() && (#[trigger] before[j])@ == one;
                assert(after[if j < i { j } else { j + 1 }]@ == one);
            }
            assert(after[i as int]@ == new);
        }
        assert(resolving::as_set(after) =~= resolving::as_set(before).insert(new));
    }
}

/// Names bound in the file that could be components.
///
/// Capitalisation is the filter, as it is in JSX. It is a convention rather than
/// a rule — LuauX resolves by binding, not by case — but offering every local
/// would bury the class list under `i`, `count` and `props`, and a completion
/// list nobody can find anything in is worse than a shorter one.
pub fn components(source: &str, config: &Config) -> (r: Vec<String>)
    ensures
        component_names(source@, r@),
{
    let bound = names_in(source, config);
    let mut names: Vec<String> = Vec::new();
    let mut i: usize = 0;
    let ghost keep = |name: Seq<char>| componentlike(name);
    while i < bound.len()
        invariant
            i <= bound@.len(),
            in_order(names@),
            keep == |name: Seq<char>| componentlike(name),
            resolving::as_set(names@) == resolving::as_set(bound@.take(i as int)).filter(keep),
        decreases bound@.len() - i,
    {
        let name = bound[i].as_str();
        let ghost seen = bound@.take(i as int);
        let ghost so_far = bound@.take(i + 1);
        proof {
            assert(resolving::as_set(so_far) =~= resolving::as_set(seen).insert(name@)) by {
                assert forall|one: Seq<char>| #[trigger]
                    resolving::as_set(so_far).contains(one) == resolving::as_set(seen).insert(
                        name@,
                    ).contains(one) by {
                    if resolving::as_set(so_far).contains(one) {
                        let j = choose|j: int|
                            0 <= j < so_far.len() && (#[trigger] so_far[j])@ == one;
                        if j < i {
                            assert(seen[j]@ == one);
                        }
                    }
                    if resolving::as_set(seen).contains(one) {
                        let j = choose|j: int| 0 <= j < seen.len() && (#[trigger] seen[j])@ == one;
                        assert(so_far[j]@ == one);
                    }
                    assert(so_far[i as int]@ == name@);
                }
            }
        }
        if !name.is_empty() && is_uppercase(name.get_char(0)) && !is_class(name) {
            insert_in_order(&mut names, name.to_owned());
        }
        assert(resolving::as_set(names@) =~= resolving::as_set(so_far).filter(keep));
        i = i + 1;
    }
    assert(bound@.take(i as int) =~= bound@);
    names
}

/// A class, as an entry.
pub open spec fn class_item(named: NamedView, range: JsonView) -> JsonView {
    item_json(
        named.written,
        CLASS,
        if named.written == named.canonical {
            "Roblox class"@
        } else {
            "Roblox class "@ + named.canonical
        },
        "1"@,
        range,
    )
}

/// What a tag name completes to: the elements that the project may write, then
/// the components that the file binds.
pub open spec fn tags_json(
    listed: Seq<NamedView>,
    names: Seq<Seq<char>>,
    range: JsonView,
) -> JsonView {
    list_json(
        listed.map_values(|named: NamedView| class_item(named, range)) + names.map_values(
            |name: Seq<char>| item_json(name, FUNCTION, "component"@, "0"@, range),
        ),
    )
}

/// What a tag name completes to, given the elements that the project may write
/// and the components that the file binds.
pub fn list_tags(elements: &[Named], names: &Vec<String>, range: &Json) -> (r: Json)
    ensures
        r@ == tags_json(naming::named_views(elements@), api::strings(names@), range@),
{
    let ghost listed = naming::named_views(elements@);
    let ghost called = api::strings(names@);
    let ghost first = listed.map_values(|named: NamedView| class_item(named, range@));
    let ghost second = called.map_values(
        |name: Seq<char>| item_json(name, FUNCTION, "component"@, "0"@, range@),
    );
    let mut items: Vec<Json> = Vec::new();
    let mut i: usize = 0;
    // Generated in the project's own spelling, never echoed from the Roblox
    // tables: under `[elements] all` the canonical name is an error, so offering
    // it would offer the one thing that cannot be written.
    while i < elements.len()
        invariant
            i <= elements@.len(),
            listed == naming::named_views(elements@),
            first == listed.map_values(|named: NamedView| class_item(named, range@)),
            json::list_view(items@) == first.take(i as int),
        decreases elements@.len() - i,
    {
        let named = &elements[i];
        let detail = if same(named.written.as_str(), named.canonical) {
            "Roblox class".to_owned()
        } else {
            after("Roblox class ", named.canonical)
        };
        let entry = item(named.written.as_str(), CLASS, detail.as_str(), "1", range);
        proof {
            json::lemma_list_view_push(items@, entry);
            assert(listed[i as int] == named@);
            assert(first.take(i + 1) =~= first.take(i as int).push(entry@));
        }
        items.push(entry);
        i = i + 1;
    }
    assert(first.take(i as int) =~= first);
    let mut j: usize = 0;
    assert(first + second.take(0) =~= first);
    // Components come first: a project's own names are what someone is usually
    // reaching for, and there are three of them against nine hundred classes.
    while j < names.len()
        invariant
            j <= names@.len(),
            called == api::strings(names@),
            second == called.map_values(
                |name: Seq<char>| item_json(name, FUNCTION, "component"@, "0"@, range@),
            ),
            json::list_view(items@) == first + second.take(j as int),
        decreases names@.len() - j,
    {
        let entry = item(names[j].as_str(), FUNCTION, "component", "0", range);
        proof {
            json::lemma_list_view_push(items@, entry);
            assert(called[j as int] == names@[j as int]@);
            assert(first + second.take(j + 1) =~= (first + second.take(j as int)).push(entry@));
        }
        items.push(entry);
        j = j + 1;
    }
    assert(second.take(j as int) =~= second);
    list(items)
}

/// A property or event of a class as an attribute.
pub open spec fn member_json(
    class: Seq<char>,
    range: JsonView,
    api: Option<&Api>,
    snippets: bool,
    named: NamedView,
    kind: u64,
    group: Seq<char>,
) -> JsonView {
    let known = api::known(api, class, named.canonical);
    let parameters = match known {
        Some(member) if snippets && kind == EVENT => api::parameters_of(member.luau_type),
        _ => None,
    };
    let entry = entry_json(
        named.written,
        kind,
        match known {
            Some(member) => member.luau_type,
            None => if kind == EVENT {
                "event"@
            } else {
                "property"@
            },
        },
        group + named.written,
        document::edit_json(
            range,
            match parameters {
                Some(parameters) => prose::between(named.written, "={"@, handler_of(parameters))
                    + "}"@,
                None => named.written,
            },
        ),
    );
    let entry = with_documentation(
        entry,
        match api::documented(api, known, named.canonical) {
            Some(docs) => Some(prose::markdown_json(described(known, docs))),
            None => None,
        },
    );
    if parameters is Some {
        entry.with("insertTextFormat"@, JsonView::number(SNIPPET))
    } else {
        entry
    }
}

/// What every attribute item needs to know.
pub struct Members<'a> {
    pub class: &'a str,
    pub range: Json,
    pub api: Option<&'a Api>,
    pub snippets: bool,
}

impl<'a> Members<'a> {
    /// A property or event, described as fully as the definitions allow.
    ///
    /// Without them this is what it always was — a name and the word
    /// "property". With them it is the member's actual type and Roblox's own
    /// description, which is the difference between a list of names and
    /// something you can read.
    pub fn item(&self, written: &str, canonical: &str, kind: u64, group: &str) -> (r: Json)
        ensures
            r@ == member_json(
                self.class@,
                self.range@,
                self.api,
                self.snippets,
                NamedView { written: written@, canonical: canonical@ },
                kind,
                group@,
            ),
    {
        let known = know(self.api, self.class, canonical);
        let detail = match &known {
            Some(member) => member.luau_type.as_str(),
            None => if kind == EVENT {
                "event"
            } else {
                "property"
            },
        };
        // An event takes a function, so completing one writes the function —
        // with its parameters typed, which is what makes them answerable inside
        // the body no matter how the factory is typed. Only when the client said
        // it understands snippets: one that does not inserts the placeholder
        // syntax as literal text.
        let parameters = match &known {
            Some(member) => if self.snippets && kind == EVENT {
                member.event_parameters()
            } else {
                None
            },
            None => None,
        };
        let new = match (&parameters, &known) {
            (Some(parameters), Some(member)) => {
                let size: usize = member.luau_type.as_str().unicode_len();
                proof {
                    api::lemma_few_parameters(member.luau_type@);
                    assert(parameters@.len() == api::strings(parameters@).len());
                    assert(parameters@.len() < size);
                }
                let body = handler(parameters.as_slice());
                let mut new = around(written, "={", body.as_str());
                new.append("}");
                new
            },
            _ => written.to_owned(),
        };
        let sort = after(group, written);
        let entry = entry(
            written,
            kind,
            detail,
            sort.as_str(),
            edit(self.range.copy(), new.as_str()),
        );
        let entry = match documentation_of(self.api, &known, canonical) {
            Some(docs) => {
                let text = describe(&known, docs);
                entry.with("documentation", markdown(text.as_str()))
            },
            None => entry,
        };
        if parameters.is_some() {
            entry.with("insertTextFormat", Json::number(SNIPPET))
        } else {
            entry
        }
    }
}

/// A member of a class as an attribute, sorted by whether it is an event.
pub open spec fn attribute_json(
    class: Seq<char>,
    range: JsonView,
    api: Option<&Api>,
    snippets: bool,
    named: NamedView,
) -> JsonView {
    if classes::events_of(class).contains(named.canonical) {
        member_json(class, range, api, snippets, named, EVENT, "1"@)
    } else {
        member_json(class, range, api, snippets, named, PROPERTY, "0"@)
    }
}

/// What an attribute name on a class completes to.
pub open spec fn attributes_json(
    class: Seq<char>,
    range: JsonView,
    api: Option<&Api>,
    snippets: bool,
    offered: Seq<NamedView>,
) -> JsonView {
    list_json(
        offered.map_values(
            |named: NamedView| attribute_json(class, range, api, snippets, named),
        ),
    )
}

/// What an attribute name on a class completes to, given its members as the
/// project writes them.
pub fn list_attributes(members: &Members, offered: &Vec<Named>) -> (r: Json)
    ensures
        r@ == attributes_json(
            members.class@,
            members.range@,
            members.api,
            members.snippets,
            naming::named_views(offered@),
        ),
{
    let ghost views = naming::named_views(offered@);
    let ghost all = views.map_values(
        |named: NamedView|
            attribute_json(members.class@, members.range@, members.api, members.snippets, named),
    );
    let mut items: Vec<Json> = Vec::new();
    let mut i: usize = 0;
    while i < offered.len()
        invariant
            i <= offered@.len(),
            views == naming::named_views(offered@),
            all == views.map_values(
                |named: NamedView|
                    attribute_json(
                        members.class@,
                        members.range@,
                        members.api,
                        members.snippets,
                        named,
                    ),
            ),
            json::list_view(items@) == all.take(i as int),
        decreases offered@.len() - i,
    {
        let named = &offered[i];
        let entry = if is_event(members.class, named.canonical) {
            members.item(named.written.as_str(), named.canonical, EVENT, "1")
        } else {
            members.item(named.written.as_str(), named.canonical, PROPERTY, "0")
        };
        proof {
            json::lemma_list_view_push(items@, entry);
            assert(views[i as int] == named@);
            assert(all.take(i + 1) =~= all.take(i as int).push(entry@));
        }
        items.push(entry);
        i = i + 1;
    }
    assert(all.take(i as int) =~= all);
    list(items)
}

#[derive(Debug)]
pub enum Completion {
    /// A `CompletionList` we answered ourselves.
    Ours(Json),
    /// Verbatim Luau — luau-lsp has the types, we do not.
    Forward,
    /// An attribute name on a **component**, whose props are Luau's to know.
    ///
    /// A component tag compiles to a call and its attributes to that call's
    /// table argument, so the props are the expected keys of that table — which
    /// this server cannot work out and luau-lsp can. It is asked, and its answer
    /// is rewritten into markup by [`props`], since `Name = x` and `Name={x}`
    /// are the same key spelled for different syntaxes.
    ComponentProps { start: usize, prefix: String },
    /// A member of a dotted tag name: `<App.|`.
    ///
    /// What `App` holds is Luau's to know, exactly as a component's props are —
    /// the tag compiles to `App.Header(…)`, so the question is a member
    /// completion on the generated call. Offering the class list here is worse
    /// than offering nothing: `<App.Accessory/>` is not a thing that exists.
    TagMembers { start: usize, prefix: String },
    /// A position with nothing to offer. Answered as an empty list rather than
    /// forwarded, so luau-lsp does not suggest Luau symbols inside markup.
    Nothing,
}

/// A completion, as plain values.
pub enum CompletionView {
    Ours(JsonView),
    Forward,
    ComponentProps { start: int, prefix: Seq<char> },
    TagMembers { start: int, prefix: Seq<char> },
    Nothing,
}

impl View for Completion {
    type V = CompletionView;

    open spec fn view(&self) -> CompletionView {
        match *self {
            Completion::Ours(value) => CompletionView::Ours(value@),
            Completion::Forward => CompletionView::Forward,
            Completion::ComponentProps { start, prefix } => CompletionView::ComponentProps {
                start: start as int,
                prefix: prefix@,
            },
            Completion::TagMembers { start, prefix } => CompletionView::TagMembers {
                start: start as int,
                prefix: prefix@,
            },
            Completion::Nothing => CompletionView::Nothing,
        }
    }
}

/// Where what has been typed of a name stands.
pub open spec fn typed_range(source: Seq<char>, start: usize, prefix: Seq<char>) -> JsonView {
    document::range_at(source, start as int, start + text::bytes(prefix).len())
}

/// What a position completes to, given the elements that the project may write,
/// the components that the file binds and the members that its class offers.
pub open spec fn completed(
    source: Seq<char>,
    config: Config,
    scan: Scan,
    api: Option<&Api>,
    snippets: bool,
    listed: Seq<NamedView>,
    names: Seq<String>,
    offered: Seq<NamedView>,
) -> CompletionView {
    match scan.context {
        Context::Luau => CompletionView::Forward,
        Context::Expression => CompletionView::Forward,
        Context::TagName { start, prefix, closing } => if closing {
            if scan.open@.len() > 0 {
                CompletionView::Ours(
                    close_json(source, start as int, prefix@, scan.open@.last().name@),
                )
            } else {
                CompletionView::Nothing
            }
        } else if prefix@.contains('.') {
            CompletionView::TagMembers { start: start as int, prefix: prefix@ }
        } else {
            CompletionView::Ours(
                tags_json(listed, api::strings(names), typed_range(source, start, prefix@)),
            )
        },
        Context::AttributeName { tag, start, prefix } => match resolving::class_of(config, tag@) {
            None => CompletionView::ComponentProps { start: start as int, prefix: prefix@ },
            Some(class) => CompletionView::Ours(
                attributes_json(
                    class,
                    typed_range(source, start, prefix@),
                    api,
                    snippets,
                    offered,
                ),
            ),
        },
        Context::Text => CompletionView::Nothing,
        Context::AttributeValue => CompletionView::Nothing,
    }
}

/// Whether a context asks for the names of elements.
pub open spec fn asks_for_tags(context: Context) -> bool {
    context matches Context::TagName { prefix, closing, .. } && !closing && !prefix@.contains('.')
}

/// The class whose members a context asks for.
pub open spec fn asks_for_members(config: Config, context: Context) -> Option<Seq<char>> {
    match context {
        Context::AttributeName { tag, .. } => resolving::class_of(config, tag@),
        _ => None,
    }
}

/// What `scan`, which stands for the text around the cursor, completes to.
///
/// `snippets` is the client's `completionItem.snippetSupport`. Without it, a
/// snippet's placeholder syntax arrives in the document as literal text.
pub fn complete(
    document: &Document,
    project: &Project,
    scan: &Scan,
    api: Option<&Api>,
    snippets: bool,
) -> (r: Completion)
    requires
        document.wf(),
        scan.context.fits(document.text@),
    ensures
        exists|names: Seq<String>, offered: Seq<NamedView>|
            {
                &&& asks_for_tags(scan.context) ==> component_names(document.text@, names)
                &&& asks_for_members(project.config, scan.context) matches Some(class)
                    ==> naming::offers(project.config, class, offered)
                &&& r@ == #[trigger] completed(
                    document.text@,
                    project.config,
                    *scan,
                    api,
                    snippets,
                    project.vocabulary.listed(),
                    names,
                    offered,
                )
            },
{
    let source = document.text.as_str();
    let ghost mut names: Seq<String> = Seq::empty();
    let ghost mut offered: Seq<NamedView> = Seq::empty();
    let r = match &scan.context {
        Context::Luau => Completion::Forward,
        Context::Expression => Completion::Forward,
        Context::TagName { start, prefix, closing } => if *closing {
            if scan.open.len() > 0 {
                Completion::Ours(
                    close_tag(
                        document,
                        *start,
                        prefix.as_str(),
                        scan.open[scan.open.len() - 1].name.as_str(),
                    ),
                )
            } else {
                Completion::Nothing
            }
        } else if has_char(prefix.as_str(), '.') {
            // A dot in the name means the list is not classes and not components
            // bound here — it is whatever the thing before the dot holds.
            Completion::TagMembers { start: *start, prefix: prefix.clone() }
        } else {
            let range = document.range_at(*start, end_of(source, *start, prefix.as_str()));
            let bound = components(source, &project.config);
            proof {
                names = bound@;
            }
            Completion::Ours(list_tags(project.vocabulary.elements(), &bound, &range))
        },
        Context::AttributeName { tag, start, prefix } => match resolve_class(
            &project.config,
            tag.as_str(),
        ) {
            // Not a class, so a component: its props are declared in Luau, and
            // the generated call is where they can be asked about.
            None => Completion::ComponentProps { start: *start, prefix: prefix.clone() },
            Some(class) => {
                let range = document.range_at(*start, end_of(source, *start, prefix.as_str()));
                // Likewise for members, and with collisions already settled:
                // `ChildAdded` and `childAdded` share one spelling under any
                // scheme, and offering both would show two identical entries
                // meaning different things.
                let list = project.vocabulary.members(&project.config, class.as_str());
                proof {
                    offered = naming::named_views(list@);
                }
                let members = Members { class: class.as_str(), range, api, snippets };
                Completion::Ours(list_attributes(&members, &list))
            },
        },
        // Text becomes a `Text` property, and an attribute string is an ordinary
        // Luau string. Neither has anything to offer.
        Context::Text => Completion::Nothing,
        Context::AttributeValue => Completion::Nothing,
    };
    assert(r@ == completed(
        document.text@,
        project.config,
        *scan,
        api,
        snippets,
        project.vocabulary.listed(),
        names,
        offered,
    ));
    r
}

/// How an entry of a completion list is labelled.
pub open spec fn label_at(list: JsonView, i: int) -> Option<Seq<char>> {
    match list.get_array("items"@) {
        Some(items) => if 0 <= i < items.len() {
            items[i].get_str("label"@)
        } else {
            None
        },
        None => None,
    }
}

/// Every class in the list for a tag name is labelled with a spelling that the
/// compiler takes for that class. The one exception is a class whose own name an
/// entry has given to another, in a project without a scheme.
pub proof fn law_every_tag_offered_can_be_written(
    project: Project,
    names: Seq<Seq<char>>,
    range: JsonView,
    i: int,
)
    requires
        project.wf(),
        0 <= i < project.vocabulary.listed().len(),
        naming::keeps_its_name(project.config, project.vocabulary.listed()[i].canonical),
    ensures
        label_at(tags_json(project.vocabulary.listed(), names, range), i) == Some(
            project.vocabulary.listed()[i].written,
        ),
        naming::element_accepted(project.config, project.vocabulary.listed()[i]),
{
    let listed = project.vocabulary.listed();
    naming::law_every_element_offered_is_accepted(project.vocabulary, project.config, i);
    let items = listed.map_values(|named: NamedView| class_item(named, range)) + names.map_values(
        |name: Seq<char>| item_json(name, FUNCTION, "component"@, "0"@, range),
    );
    lemma_items(items);
    assert(items[i] == class_item(listed[i], range));
    lemma_label();
    assert(items[i].get_str("label"@) == Some(listed[i].written));
}

/// Every attribute in the list for a class, under a scheme, is labelled with a
/// spelling that the compiler can read as a member of the class.
pub proof fn law_every_attribute_offered_can_be_written(
    config: Config,
    class: Seq<char>,
    range: JsonView,
    api: Option<&Api>,
    snippets: bool,
    offered: Seq<NamedView>,
    i: int,
)
    requires
        naming::offers(config, class, offered),
        !(settings::member_scheme(config) is Pascal),
        0 <= i < offered.len(),
    ensures
        label_at(attributes_json(class, range, api, snippets, offered), i) == Some(
            offered[i].written,
        ),
        settings::readings(config)[(class, offered[i].written)].contains(
            Some(offered[i].canonical),
        ),
{
    naming::law_every_member_offered_is_read_back(config, class, offered, i);
    let items = offered.map_values(
        |named: NamedView| attribute_json(class, range, api, snippets, named),
    );
    lemma_items(items);
    assert(items[i] == attribute_json(class, range, api, snippets, offered[i]));
    lemma_label();
    assert(items[i].get_str("label"@) == Some(offered[i].written));
}

/// What has been typed of a name, and where it begins.
pub open spec fn typed(context: Context) -> Option<(usize, Seq<char>)> {
    match context {
        Context::TagName { start, prefix, .. } => Some((start, prefix@)),
        Context::AttributeName { start, prefix, .. } => Some((start, prefix@)),
        _ => None,
    }
}

/// What an entry of a completion list writes into a file in place of what
/// stands between two offsets, if that is all it does: every other byte of the
/// file is as it was.
pub open spec fn written_over(source: Seq<char>, entry: JsonView, start: int, end: int) -> Option<
    Seq<char>,
> {
    match entry.get("textEdit"@) {
        Some(edit) => match document::edit_of(source, edit) {
            Some((from, to, new)) => if from == start && to == end && document::edited(
                source,
                seq![edit],
            ) == Some(
                text::cut(source, 0, start) + new + text::cut(
                    source,
                    end,
                    text::bytes(source).len() as int,
                ),
            ) {
                Some(new)
            } else {
                None
            },
            None => None,
        },
        None => None,
    }
}

/// Whether an entry is a snippet, whose placeholders the editor fills in.
pub open spec fn is_snippet(entry: JsonView) -> bool {
    entry.get_u64("insertTextFormat"@) == Some(2u64)
}

/// How the entries for a context are labelled, in order.
pub open spec fn labels_for(
    context: Context,
    open: Seq<scan::Open>,
    listed: Seq<NamedView>,
    names: Seq<String>,
    offered: Seq<NamedView>,
) -> Seq<Seq<char>> {
    match context {
        Context::TagName { closing: true, .. } => seq![
            if open.last().name@.len() == 0 {
                "</>"@
            } else {
                open.last().name@
            },
        ],
        Context::TagName { .. } => listed.map_values(|named: NamedView| named.written)
            + names.map_values(|name: String| name@),
        _ => offered.map_values(|named: NamedView| named.written),
    }
}

/// Choosing an entry puts it exactly in place of what has been typed of the
/// name, at a tag's name and at an attribute's alike, and leaves every other byte
/// of the file as it was. What is put there is the entry's own label, which a
/// snippet goes on from, and which a closing tag may follow with its `>`. There
/// is an entry for each name that could be meant, and no other.
///
/// The place has to be one that a position can say.
#[verifier::rlimit(40)]
pub proof fn law_an_entry_replaces_what_was_typed(
    source: Seq<char>,
    config: Config,
    scan: Scan,
    api: Option<&Api>,
    snippets: bool,
    listed: Seq<NamedView>,
    names: Seq<String>,
    offered: Seq<NamedView>,
    start: usize,
    prefix: Seq<char>,
)
    requires
        typed(scan.context) == Some((start, prefix)),
        scan.context.fits(source),
        line_index::addressable(source, start as int),
        line_index::addressable(source, start + text::bytes(prefix).len()),
    ensures
        ({
            let end = start + text::bytes(prefix).len();
            let labels = labels_for(scan.context, scan.open@, listed, names, offered);
            match completed(source, config, scan, api, snippets, listed, names, offered) {
                CompletionView::Ours(list) => match list.get_array("items"@) {
                    Some(items) => {
                        &&& items.len() == labels.len()
                        &&& forall|i: int|
                            #![trigger items[i]]
                            0 <= i < items.len() ==> {
                                &&& items[i].get_str("label"@) == Some(labels[i])
                                &&& written_over(source, items[i], start as int, end) is Some
                                &&& is_snippet(items[i]) ==> snippets && scan.context
                                    is AttributeName
                                &&& ({
                                    let new = written_over(
                                        source,
                                        items[i],
                                        start as int,
                                        end,
                                    )->Some_0;
                                    match scan.context {
                                        Context::TagName { closing: true, .. } => new
                                            == scan.open@.last().name@ || new
                                            == scan.open@.last().name@ + ">"@,
                                        _ => labels[i].is_prefix_of(new) && (!is_snippet(items[i])
                                            ==> new == labels[i]),
                                    }
                                })
                            }
                    },
                    None => false,
                },
                _ => true,
            }
        }),
{
    let end = start + text::bytes(prefix).len();
    let range = document::range_at(source, start as int, end);
    json::lemma_gets();
    lemma_label();
    lemma_text_edit();
    assert forall|new: Seq<char>|
        {
            &&& document::edit_of(source, #[trigger] document::edit_json(range, new)) == Some(
                (start as int, end, new),
            )
            &&& document::edited(source, seq![document::edit_json(range, new)]) == Some(
                document::spliced(source, start as int, end, new),
            )
        } by {
        document::law_edits_read_back(source, start as int, end, new);
    }
    match scan.context {
        Context::TagName { closing, .. } => if closing {
            if scan.open@.len() > 0 {
                let list = close_json(source, start as int, prefix, scan.open@.last().name@);
                lemma_items(list.get_array("items"@)->Some_0);
            }
        } else {
            let called = api::strings(names);
            let items = listed.map_values(|named: NamedView| class_item(named, range))
                + called.map_values(
                |name: Seq<char>| item_json(name, FUNCTION, "component"@, "0"@, range),
            );
            lemma_items(items);
        },
        Context::AttributeName { tag, .. } => {
            if let Some(class) = resolving::class_of(config, tag@) {
                let items = offered.map_values(
                    |named: NamedView| attribute_json(class, range, api, snippets, named),
                );
                lemma_items(items);
            }
        },
        _ => {},
    }
}

/// Choosing what `</` completes to leaves the closing tag closed, and closed
/// once: a `>` is written only where there is none to come.
#[verifier::rlimit(40)]
pub proof fn law_a_closing_entry_closes_its_tag(
    source: Seq<char>,
    start: usize,
    prefix: Seq<char>,
    name: Seq<char>,
)
    requires
        scan::stands(source, start, prefix),
        line_index::addressable(source, start as int),
        line_index::addressable(source, start + text::bytes(prefix).len()),
    ensures
        ({
            let end = start + text::bytes(prefix).len();
            let rest = text::cut(source, end, text::bytes(source).len() as int);
            match close_json(source, start as int, prefix, name).get_array("items"@) {
                Some(items) => {
                    &&& items.len() == 1
                    &&& match written_over(source, items[0], start as int, end) {
                        Some(new) => {
                            &&& new.len() > name.len() <==> !closes_at(source, end)
                            &&& closes_at(
                                text::cut(source, 0, start as int) + new + rest,
                                start + text::bytes(name).len(),
                            )
                        },
                        None => false,
                    }
                },
                None => false,
            }
        }),
{
    let whole = text::bytes(source).len() as int;
    let end = start + text::bytes(prefix).len();
    let range = document::range_at(source, start as int, end);
    json::lemma_gets();
    lemma_text_edit();
    lemma_items(close_json(source, start as int, prefix, name).get_array("items"@)->Some_0);
    reveal_strlit(">");
    text::lemma_boundary_ends(source);
    let head = text::cut(source, 0, start as int);
    let rest = text::cut(source, end, whole);
    text::lemma_cut(source, 0, start as int);
    text::lemma_bytes_concat(head, name);
    document::law_edits_read_back(source, start as int, end, name);
    document::law_edits_read_back(source, start as int, end, name + ">"@);
    if closes_at(source, end) {
        text::lemma_cut_after(head + name, rest);
    } else {
        let closed = ">"@ + rest;
        text::lemma_cut_after(head + name, closed);
        assert(head + (name + ">"@) + rest =~= (head + name) + closed);
        assert(closed[0] == '>');
        text::lemma_leading(closed, Edge::White, 0);
    }
}

/// Whether an entry that another server's item became is that item: it has its
/// label, writes that label over the range, and goes on from it only as a
/// snippet.
pub open spec fn stands_for(entry: JsonView, item: JsonView, range: JsonView) -> bool {
    match (entry.get_str("label"@), entry.get("textEdit"@)) {
        (Some(label), Some(edit)) => {
            &&& item.get_str("label"@) == Some(label)
            &&& edit.get("range"@) == Some(range)
            &&& match edit.get_str("newText"@) {
                Some(new) => label.is_prefix_of(new) && (!is_snippet(entry) ==> new == label),
                None => false,
            }
        },
        _ => false,
    }
}

/// Whether an item is a key that is expected and can be written as an attribute.
pub open spec fn expected(item: JsonView) -> bool {
    &&& item.get_str("sortText"@) == Some("1"@)
    &&& item.get_str("label"@) matches Some(label) && writable(label)
}

/// Whether one of some entries stands for an item.
pub open spec fn represented(entries: Seq<JsonView>, item: JsonView, range: JsonView) -> bool {
    exists|k: int| 0 <= k < entries.len() && stands_for(#[trigger] entries[k], item, range)
}

/// Whether an entry stands for one of some items that is an expected key.
pub open spec fn stands_for_expected(
    entry: JsonView,
    items: Seq<JsonView>,
    range: JsonView,
) -> bool {
    exists|i: int|
        0 <= i < items.len() && expected(#[trigger] items[i]) && stands_for(entry, items[i], range)
}

/// Every entry for a component's attributes stands for an expected key, and
/// every expected key has one.
pub proof fn law_expected_keys_are_offered_and_no_others(
    items: Seq<JsonView>,
    range: JsonView,
    snippets: bool,
)
    ensures
        forall|i: int|
            0 <= i < items.len() && expected(#[trigger] items[i]) ==> represented(
                kept_props(items, range, snippets),
                items[i],
                range,
            ),
        forall|k: int|
            #![trigger kept_props(items, range, snippets)[k]]
            0 <= k < kept_props(items, range, snippets).len() ==> stands_for_expected(
                kept_props(items, range, snippets)[k],
                items,
                range,
            ) && (is_snippet(kept_props(items, range, snippets)[k]) ==> snippets),
    decreases items.len(),
{
    if items.len() > 0 {
        let rest = items.drop_last();
        let before = kept_props(rest, range, snippets);
        let kept = kept_props(items, range, snippets);
        law_expected_keys_are_offered_and_no_others(rest, range, snippets);
        lemma_prop(items.last(), range, snippets);
        assert forall|i: int| 0 <= i < items.len() && expected(
            #[trigger] items[i],
        ) implies represented(kept, items[i], range) by {
            if i < rest.len() {
                assert(rest[i] == items[i]);
                let k = choose|k: int|
                    0 <= k < before.len() && stands_for(#[trigger] before[k], rest[i], range);
                assert(kept[k] == before[k]);
            } else {
                assert(stands_for(kept[before.len() as int], items[i], range));
            }
        }
        assert forall|k: int| #![trigger kept[k]] 0 <= k < kept.len() implies stands_for_expected(
            kept[k],
            items,
            range,
        ) && (is_snippet(kept[k]) ==> snippets) by {
            if k < before.len() {
                assert(kept[k] == before[k]);
                let i = choose|i: int|
                    0 <= i < rest.len() && expected(#[trigger] rest[i]) && stands_for(
                        before[k],
                        rest[i],
                        range,
                    );
                assert(items[i] == rest[i]);
            } else {
                assert(expected(items[items.len() - 1]));
            }
        }
    }
}

/// An item becomes an entry that stands for it if it is an expected key.
proof fn lemma_prop(item: JsonView, range: JsonView, snippets: bool)
    ensures
        match prop_json(item, range, snippets) {
            Some(entry) => {
                &&& expected(item)
                &&& stands_for(entry, item, range)
                &&& is_snippet(entry) ==> snippets
            },
            None => !expected(item),
        },
{
    json::lemma_gets();
    lemma_label();
    lemma_text_edit();
    document::lemma_edit_fields(range);
}

/// Whether an item can be written as a name.
pub open spec fn is_writable(item: JsonView) -> bool {
    match item.get_str("label"@) {
        Some(label) => writable(label),
        None => false,
    }
}

/// Whether an entry stands for one of some items that can be written as a name.
pub open spec fn stands_for_writable(
    entry: JsonView,
    items: Seq<JsonView>,
    range: JsonView,
) -> bool {
    exists|i: int|
        0 <= i < items.len() && is_writable(#[trigger] items[i]) && stands_for(
            entry,
            items[i],
            range,
        )
}

/// The same of the members that a dotted tag name could go on with: every one
/// that can be written has an entry, and every entry stands for one.
pub proof fn law_writable_members_are_offered_and_no_others(items: Seq<JsonView>, range: JsonView)
    ensures
        forall|i: int|
            0 <= i < items.len() && is_writable(#[trigger] items[i]) ==> represented(
                kept_members(items, range),
                items[i],
                range,
            ),
        forall|k: int|
            #![trigger kept_members(items, range)[k]]
            0 <= k < kept_members(items, range).len() ==> stands_for_writable(
                kept_members(items, range)[k],
                items,
                range,
            ) && !is_snippet(kept_members(items, range)[k]),
    decreases items.len(),
{
    if items.len() > 0 {
        let rest = items.drop_last();
        let before = kept_members(rest, range);
        let kept = kept_members(items, range);
        law_writable_members_are_offered_and_no_others(rest, range);
        lemma_member(items.last(), range);
        assert forall|i: int| 0 <= i < items.len() && is_writable(
            #[trigger] items[i],
        ) implies represented(kept, items[i], range) by {
            if i < rest.len() {
                assert(rest[i] == items[i]);
                let k = choose|k: int|
                    0 <= k < before.len() && stands_for(#[trigger] before[k], rest[i], range);
                assert(kept[k] == before[k]);
            } else {
                assert(stands_for(kept[before.len() as int], items[i], range));
            }
        }
        assert forall|k: int| #![trigger kept[k]] 0 <= k < kept.len() implies stands_for_writable(
            kept[k],
            items,
            range,
        ) && !is_snippet(kept[k]) by {
            if k < before.len() {
                assert(kept[k] == before[k]);
                let i = choose|i: int|
                    0 <= i < rest.len() && is_writable(#[trigger] rest[i]) && stands_for(
                        before[k],
                        rest[i],
                        range,
                    );
                assert(items[i] == rest[i]);
            } else {
                assert(is_writable(items[items.len() - 1]));
            }
        }
    }
}

/// An item becomes an entry that stands for it if it can be written as a name.
proof fn lemma_member(item: JsonView, range: JsonView)
    ensures
        match tag_member_json(item, range) {
            Some(entry) => {
                &&& is_writable(item)
                &&& stands_for(entry, item, range)
                &&& !is_snippet(entry)
            },
            None => !is_writable(item),
        },
{
    json::lemma_gets();
    lemma_label();
    lemma_text_edit();
    document::lemma_edit_fields(range);
}

/// How an entry is sorted among others.
pub open spec fn sorted_as(entry: JsonView) -> Seq<char> {
    entry.get_str("sortText"@)->Some_0
}

/// Whether an entry is of a kind, says something beside its label, and has a place
/// among the others.
pub open spec fn presents(entry: JsonView, kind: u64, detail: Seq<char>) -> bool {
    &&& entry.get_u64("kind"@) == Some(kind)
    &&& entry.get_str("detail"@) == Some(detail)
    &&& entry.get_str("sortText"@) is Some
}

/// In the list for a tag's name the components come before the classes, each of
/// them by name, and each entry says which of the two it is.
#[verifier::rlimit(40)]
pub proof fn law_components_come_before_classes(
    listed: Seq<NamedView>,
    names: Seq<Seq<char>>,
    range: JsonView,
    i: int,
    j: int,
)
    requires
        0 <= i < listed.len(),
        0 <= j < names.len(),
    ensures
        ({
            let list = tags_json(listed, names, range);
            match list.get_array("items"@) {
                Some(items) => {
                    let class = items[i];
                    let component = items[listed.len() + j];
                    &&& presents(component, 3, "component"@)
                    &&& presents(
                        class,
                        7,
                        if listed[i].written == listed[i].canonical {
                            "Roblox class"@
                        } else {
                            "Roblox class "@ + listed[i].canonical
                        },
                    )
                    &&& text::precedes(sorted_as(component), sorted_as(class))
                    &&& forall|k: int|
                        #![trigger listed[k]]
                        0 <= k < listed.len() && text::precedes(
                            listed[i].written,
                            listed[k].written,
                        ) ==> text::precedes(sorted_as(class), sorted_as(items[k]))
                    &&& forall|k: int|
                        #![trigger names[k]]
                        0 <= k < names.len() && text::precedes(names[j], names[k])
                            ==> text::precedes(
                            sorted_as(component),
                            sorted_as(items[listed.len() + k]),
                        )
                },
                None => false,
            }
        }),
        tags_json(listed, names, range).get("isIncomplete"@) == Some(JsonView::Bool(false)),
{
    let items = listed.map_values(|named: NamedView| class_item(named, range)) + names.map_values(
        |name: Seq<char>| item_json(name, FUNCTION, "component"@, "0"@, range),
    );
    lemma_items(items);
    lemma_complete(items);
    lemma_presented();
    assert(items[i] == class_item(listed[i], range));
    assert(items[listed.len() + j] == item_json(names[j], FUNCTION, "component"@, "0"@, range));
    lemma_groups(names[j], listed[i].written);
    assert forall|k: int|
        #![trigger listed[k]]
        0 <= k < listed.len() && text::precedes(
            listed[i].written,
            listed[k].written,
        ) implies text::precedes(sorted_as(items[i]), sorted_as(items[k])) by {
        assert(items[k] == class_item(listed[k], range));
        lemma_within_a_group("1"@, listed[i].written, listed[k].written);
    }
    assert forall|k: int|
        #![trigger names[k]]
        0 <= k < names.len() && text::precedes(names[j], names[k]) implies text::precedes(
        sorted_as(items[listed.len() + j]),
        sorted_as(items[listed.len() + k]),
    ) by {
        assert(items[listed.len() + k] == item_json(
            names[k],
            FUNCTION,
            "component"@,
            "0"@,
            range,
        ));
        lemma_within_a_group("0"@, names[j], names[k]);
    }
}

/// In the list for an attribute's name the properties come before the events, each
/// of them by name. Each entry says which of the two it is, what its type is, if
/// that is known, and all that is documented of it.
#[verifier::rlimit(40)]
pub proof fn law_properties_come_before_events(
    class: Seq<char>,
    range: JsonView,
    api: Option<&Api>,
    snippets: bool,
    offered: Seq<NamedView>,
    i: int,
    k: int,
)
    requires
        0 <= i < offered.len(),
        0 <= k < offered.len(),
    ensures
        ({
            let list = attributes_json(class, range, api, snippets, offered);
            let known = api::known(api, class, offered[i].canonical);
            let event = classes::events_of(class).contains(offered[i].canonical);
            let other = classes::events_of(class).contains(offered[k].canonical);
            match list.get_array("items"@) {
                Some(items) => {
                    &&& presents(
                        items[i],
                        if event {
                            23
                        } else {
                            10
                        },
                        match known {
                            Some(member) => member.luau_type,
                            None => if event {
                                "event"@
                            } else {
                                "property"@
                            },
                        },
                    )
                    &&& items[i].get("documentation"@) == match api::documented(
                        api,
                        known,
                        offered[i].canonical,
                    ) {
                        Some(docs) => Some(prose::markdown_json(described(known, docs))),
                        None => None,
                    }
                    &&& !event && other ==> text::precedes(
                        sorted_as(items[i]),
                        sorted_as(items[k]),
                    )
                    &&& event == other && text::precedes(
                        offered[i].written,
                        offered[k].written,
                    ) ==> text::precedes(sorted_as(items[i]), sorted_as(items[k]))
                },
                None => false,
            }
        }),
{
    let items = offered.map_values(
        |named: NamedView| attribute_json(class, range, api, snippets, named),
    );
    lemma_items(items);
    lemma_presented();
    assert(items[i] == attribute_json(class, range, api, snippets, offered[i]));
    assert(items[k] == attribute_json(class, range, api, snippets, offered[k]));
    lemma_groups(offered[i].written, offered[k].written);
    if text::precedes(offered[i].written, offered[k].written) {
        lemma_within_a_group("0"@, offered[i].written, offered[k].written);
        lemma_within_a_group("1"@, offered[i].written, offered[k].written);
    }
}

/// What one group sorts as comes before what the next does.
proof fn lemma_groups(a: Seq<char>, b: Seq<char>)
    ensures
        text::precedes("0"@ + a, "1"@ + b),
{
    reveal_strlit("0");
    reveal_strlit("1");
    assert(vstd::utf8::is_ascii_chars("0"@));
    assert(vstd::utf8::is_ascii_chars("1"@));
    vstd::utf8::is_ascii_chars_encode_utf8("0"@);
    vstd::utf8::is_ascii_chars_encode_utf8("1"@);
    text::lemma_bytes_concat("0"@, a);
    text::lemma_bytes_concat("1"@, b);
    assert(text::bytes("0"@ + a)[0] == 48);
    assert(text::bytes("1"@ + b)[0] == 49);
}

/// Within a group what comes first by name comes first.
proof fn lemma_within_a_group(group: Seq<char>, a: Seq<char>, b: Seq<char>)
    requires
        group == "0"@ || group == "1"@,
        text::precedes(a, b),
    ensures
        text::precedes(group + a, group + b),
{
    reveal_strlit("0");
    reveal_strlit("1");
    assert(vstd::utf8::is_ascii_chars(group));
    vstd::utf8::is_ascii_chars_encode_utf8(group);
    text::lemma_bytes_concat(group, a);
    text::lemma_bytes_concat(group, b);
    assert(text::bytes(group).len() == 1);
    assert(text::bytes(group + a).drop_first() =~= text::bytes(a));
    assert(text::bytes(group + b).drop_first() =~= text::bytes(b));
}

/// What an entry holds under each key.
proof fn lemma_presented()
    ensures
        forall|value: JsonView, key: Seq<char>, one: JsonView, sought: Seq<char>|
            value is Object ==> #[trigger] value.with(key, one).get(sought) == if sought == key {
                Some(one)
            } else {
                value.get(sought)
            },
        "kind"@ != "detail"@,
        "kind"@ != "sortText"@,
        "kind"@ != "textEdit"@,
        "kind"@ != "documentation"@,
        "kind"@ != "insertTextFormat"@,
        "kind"@ != "label"@,
        "detail"@ != "sortText"@,
        "detail"@ != "textEdit"@,
        "detail"@ != "documentation"@,
        "detail"@ != "insertTextFormat"@,
        "detail"@ != "label"@,
        "sortText"@ != "textEdit"@,
        "sortText"@ != "documentation"@,
        "sortText"@ != "insertTextFormat"@,
        "sortText"@ != "label"@,
        "documentation"@ != "label"@,
        "documentation"@ != "textEdit"@,
        "documentation"@ != "insertTextFormat"@,
{
    json::lemma_gets();
    lemma_label();
    lemma_text_edit();
    reveal_strlit("kind");
    reveal_strlit("detail");
    reveal_strlit("sortText");
    reveal_strlit("documentation");
    reveal_strlit("insertTextFormat");
    assert("kind"@.len() == 4 && "detail"@.len() == 6 && "sortText"@.len() == 8);
    assert("documentation"@.len() == 13 && "insertTextFormat"@.len() == 16);
    reveal_strlit("textEdit");
    assert("textEdit"@.len() == 8);
}

/// A list says that it is whole.
proof fn lemma_complete(items: Seq<JsonView>)
    ensures
        list_json(items).get("isIncomplete"@) == Some(JsonView::Bool(false)),
{
    reveal_strlit("items");
    reveal_strlit("isIncomplete");
    assert("items"@.len() != "isIncomplete"@.len());
    json::lemma_gets();
}

/// Every place is answered as it should be: Luau is left to luau-lsp; text and the
/// value of an attribute have nothing; a closing tag has an answer just where
/// something is open; a dotted name, and the attributes of what is no class, are
/// asked of luau-lsp for what has been typed; and the rest is answered here.
pub proof fn law_every_place_has_its_answer(
    source: Seq<char>,
    config: Config,
    scan: Scan,
    api: Option<&Api>,
    snippets: bool,
    listed: Seq<NamedView>,
    names: Seq<String>,
    offered: Seq<NamedView>,
)
    ensures
        ({
            let answer = completed(source, config, scan, api, snippets, listed, names, offered);
            match scan.context {
                Context::Luau | Context::Expression => answer is Forward,
                Context::Text | Context::AttributeValue => answer is Nothing,
                Context::TagName { start, prefix, closing } => if closing {
                    if scan.open@.len() > 0 {
                        answer is Ours
                    } else {
                        answer is Nothing
                    }
                } else if prefix@.contains('.') {
                    answer == (CompletionView::TagMembers { start: start as int, prefix: prefix@ })
                } else {
                    answer is Ours
                },
                Context::AttributeName { tag, start, prefix } => if resolving::class_of(
                    config,
                    tag@,
                ) is Some {
                    answer is Ours
                } else {
                    answer == (CompletionView::ComponentProps {
                        start: start as int,
                        prefix: prefix@,
                    })
                },
            }
        }),
{
}

/// The components that are offered are the names that the file binds and that
/// begin with a capital, but for those of classes; all of them, once each, in byte
/// order.
pub proof fn law_components_are_the_capitalised_names(
    source: Seq<char>,
    names: Seq<String>,
    name: Seq<char>,
)
    requires
        component_names(source, names),
    ensures
        (exists|i: int| 0 <= i < names.len() && (#[trigger] names[i])@ == name) <==> {
            &&& resolving::names_of(source).contains(name)
            &&& name.len() > 0
            &&& uppercase(name[0])
            &&& !classes::creatable(name)
        },
        forall|i: int, j: int|
            0 <= i < j < names.len() ==> text::precedes(
                (#[trigger] names[i])@,
                (#[trigger] names[j])@,
            ),
{
    assert(resolving::as_set(names).contains(name) <==> resolving::names_of(source).filter(
        |name: Seq<char>| componentlike(name),
    ).contains(name));
}

/// No other field of an entry is its edit or its format.
proof fn lemma_text_edit()
    ensures
        "textEdit"@ != "label"@,
        "textEdit"@ != "kind"@,
        "textEdit"@ != "detail"@,
        "textEdit"@ != "sortText"@,
        "textEdit"@ != "documentation"@,
        "textEdit"@ != "insertTextFormat"@,
        "insertTextFormat"@ != "label"@,
        "insertTextFormat"@ != "kind"@,
        "insertTextFormat"@ != "detail"@,
        "insertTextFormat"@ != "sortText"@,
        "insertTextFormat"@ != "documentation"@,
{
    reveal_strlit("label");
    reveal_strlit("kind");
    reveal_strlit("detail");
    reveal_strlit("sortText");
    reveal_strlit("textEdit");
    reveal_strlit("documentation");
    reveal_strlit("insertTextFormat");
    assert("label"@.len() == 5);
    assert("kind"@.len() == 4 && "detail"@.len() == 6);
    assert("textEdit"@[0] == 't' && "sortText"@[0] == 's');
    assert("textEdit"@.len() == 8 && "documentation"@.len() == 13);
    assert("insertTextFormat"@.len() == 16 && "sortText"@.len() == 8);
}

/// No other field of an entry is its label.
proof fn lemma_label()
    ensures
        forall|value: JsonView, key: Seq<char>, one: JsonView, sought: Seq<char>|
            value is Object ==> #[trigger] value.with(key, one).get(sought) == if sought == key {
                Some(one)
            } else {
                value.get(sought)
            },
        "label"@ != "kind"@,
        "label"@ != "detail"@,
        "label"@ != "sortText"@,
        "label"@ != "textEdit"@,
        "label"@ != "documentation"@,
        "label"@ != "insertTextFormat"@,
{
    json::lemma_gets();
    reveal_strlit("label");
    reveal_strlit("kind");
    reveal_strlit("detail");
    reveal_strlit("sortText");
    reveal_strlit("textEdit");
    reveal_strlit("documentation");
    reveal_strlit("insertTextFormat");
    assert("label"@.len() == 5);
    assert("kind"@.len() == 4 && "detail"@.len() == 6 && "sortText"@.len() == 8);
    assert("textEdit"@.len() == 8 && "documentation"@.len() == 13);
    assert("insertTextFormat"@.len() == 16);
}

/// The entries of a list are under `items`.
proof fn lemma_items(items: Seq<JsonView>)
    ensures
        list_json(items).get_array("items"@) == Some(items),
{
    reveal_strlit("items");
    reveal_strlit("isIncomplete");
    assert("items"@.len() != "isIncomplete"@.len());
    let first = JsonView::object().with("isIncomplete"@, JsonView::Bool(false));
    json::lemma_with(first, "items"@, JsonView::Array(items));
}

} // verus!
