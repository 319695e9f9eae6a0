//! Hover, and go-to-definition on a tag.
//!
//! Inside a captured expression there is nothing to say that luau-lsp does not
//! say better, so those forward. On a tag we know something it cannot: whether
//! `<Button>` is a Roblox class or a component defined on line 3 — the very
//! distinction the string `"Button"` in the generated code destroys.

use vstd::prelude::*;
use vstd::string::*;

use luaux::config::Config;

use crate::api::{self, document as documentation_of, know, Api};
use crate::bindings::{self, find};
use crate::classes::{self, has_text_property, is_event, superclass};
use crate::completion::{self, html_to_markdown, link};
use crate::decimal::{self, decimal};
use crate::document::{self, Document};
use crate::json::{self, Json, JsonView};
use crate::line_index;
use crate::pieces::{self, has_char, is_name_part, split_once};
use crate::project::Project;
use crate::prose::{self, around, fence, join, markdown};
use crate::resolving::{self, accept, read_attribute, resolve_class};
use crate::scan::{end_of, Context, Scan};
use crate::settings;
use crate::syntax::{self, TagName};
use crate::text::{self, byte_count, length, same, slice};
use crate::tree::{self, flatten, Tag};

verus! {

#[derive(Debug)]
pub enum Answer {
    Ours(Json),
    /// Verbatim Luau; luau-lsp has the types.
    Forward,
    /// Ours, and luau-lsp's too where it has something to add — a component tag,
    /// which is a real Luau identifier as well as a tag. Its type and the doc
    /// comment above its binding are luau-lsp's to know; where the tag resolved
    /// is ours. If the position does not map, or there is no child, ours stands
    /// on its own.
    ///
    /// `at` is the offset to *ask* about, which is not always the one under the
    /// cursor: `</Row>` names the same component as `<Row>`, but an element is
    /// emitted once, so only the opening name exists in the generated code.
    Both { ours: Json, at: usize },
    Nothing,
}

/// An answer, as plain values.
pub enum AnswerView {
    Ours(JsonView),
    Forward,
    Both { ours: JsonView, at: int },
    Nothing,
}

impl View for Answer {
    type V = AnswerView;

    open spec fn view(&self) -> AnswerView {
        match *self {
            Answer::Ours(value) => AnswerView::Ours(value@),
            Answer::Forward => AnswerView::Forward,
            Answer::Both { ours, at } => AnswerView::Both { ours: ours@, at: at as int },
            Answer::Nothing => AnswerView::Nothing,
        }
    }
}

/// An element name under the cursor.
pub struct TagAtView {
    pub name: Seq<char>,
    pub range: JsonView,
    pub declared_at: int,
}

/// The first of some tags one of whose names is at an offset, and that name.
pub open spec fn first_named(tags: Seq<Tag>, offset: usize) -> Option<(Tag, (usize, usize))>
    decreases tags.len(),
{
    if tags.len() == 0 {
        None
    } else {
        match tags[0].named(offset) {
            Some(span) => Some((tags[0], span)),
            None => first_named(tags.drop_first(), offset),
        }
    }
}

/// The element name under the cursor: that of a parsed element, or else what has
/// been typed of one.
pub open spec fn tag_found(
    source: Seq<char>,
    context: Context,
    tags: Seq<Tag>,
    offset: usize,
) -> Option<TagAtView> {
    match first_named(tree::flat(tags), offset) {
        Some((tag, span)) => Some(
            TagAtView {
                name: tag.name@,
                range: document::range_at(source, span.0 as int, span.1 as int),
                declared_at: tag.open_name.0 as int,
            },
        ),
        None => match context {
            Context::TagName { start, prefix, .. } if prefix@.len() > 0 => Some(
                TagAtView {
                    name: prefix@,
                    range: completion::typed_range(source, start, prefix@),
                    declared_at: start as int,
                },
            ),
            _ => None,
        },
    }
}

/// An element name under the cursor.
struct TagAt {
    name: String,
    /// The name the cursor is on, which is what an answer is *about*.
    range: Json,
    /// Where that name exists as a Luau identifier — the opening tag, since an
    /// element is emitted once however many times it is written.
    declared_at: usize,
}

impl View for TagAt {
    type V = TagAtView;

    closed spec fn view(&self) -> TagAtView {
        TagAtView {
            name: self.name@,
            range: self.range@,
            declared_at: self.declared_at as int,
        }
    }
}

/// The element name under the cursor, from the parsed tree where possible and
/// from the tolerant scan when the file does not parse.
fn tag_at(document: &Document, context: &Context, tags: &[Tag], offset: usize) -> (r: Option<TagAt>)
    requires
        document.wf(),
        context.fits(document.text@),
    ensures
        match (r, tag_found(document.text@, *context, tags@, offset)) {
            (Some(a), Some(b)) => a@ == b,
            (None, None) => true,
            _ => false,
        },
{
    let all = flatten(tags);
    let ghost seen = tree::flat(tags@);
    let mut i: usize = 0;
    assert(seen.skip(0) =~= seen);
    while i < all.len()
        invariant
            document.wf(),
            i <= all@.len(),
            seen == tree::flat(tags@),
            all@.map_values(|tag: &Tag| *tag) == seen,
            first_named(seen, offset) == first_named(seen.skip(i as int), offset),
        decreases all@.len() - i,
    {
        let tag = all[i];
        proof {
            assert(seen[i as int] == *tag);
            assert(seen.skip(i as int)[0] == *tag);
            assert(seen.skip(i as int).drop_first() =~= seen.skip(i + 1));
        }
        if let Some((start, end)) = tag.name_at(offset) {
            return Some(
                TagAt {
                    name: tag.name.clone(),
                    range: document.range_at(start, end),
                    declared_at: tag.open_name.0,
                },
            );
        }
        i = i + 1;
    }
    // Half-typed: `<Fra` has no tree yet but is still a tag name. There is no
    // pair to consult, so the name is its own best guess — and a file in this
    // state rarely compiles, in which case nothing forwards anyway.
    match context {
        Context::TagName { start, prefix, .. } => if prefix.as_str().is_empty() {
            None
        } else {
            let end: usize = end_of(document.text.as_str(), *start, prefix.as_str());
            Some(
                TagAt {
                    name: prefix.clone(),
                    range: document.range_at(*start, end),
                    declared_at: *start,
                },
            )
        },
        _ => None,
    }
}

/// How many characters of a name a text begins with.
pub open spec fn name_length(text: Seq<char>) -> int
    decreases text.len(),
{
    if text.len() == 0 || !pieces::name_part(text[0]) {
        0
    } else {
        1 + name_length(text.drop_first())
    }
}

proof fn lemma_name_length(text: Seq<char>, n: int)
    requires
        0 <= n <= text.len(),
        forall|i: int| 0 <= i < n ==> pieces::name_part(#[trigger] text[i]),
        n < text.len() ==> !pieces::name_part(text[n]),
    ensures
        name_length(text) == n,
    decreases n,
{
    if n > 0 {
        assert(pieces::name_part(text[0]));
        assert forall|i: int| 0 <= i < n - 1 implies pieces::name_part(
            #[trigger] text.drop_first()[i],
        ) by {
            assert(pieces::name_part(text[i + 1]));
        }
        lemma_name_length(text.drop_first(), n - 1);
    }
}

/// The whole identifier that begins at an offset.
pub open spec fn name_from(source: Seq<char>, start: int) -> Seq<char> {
    let rest = text::cut(source, start, text::bytes(source).len() as int);
    rest.take(name_length(rest))
}

/// The whole identifier beginning at `start`.
fn whole_name(source: &str, start: usize) -> (r: String)
    requires
        text::cuttable(source@, start as int, text::bytes(source@).len() as int),
    ensures
        r@ == name_from(source@, start as int),
        start + text::bytes(r@).len() <= text::bytes(source@).len(),
{
    let rest = slice(source, start, length(source));
    let n: usize = length(rest);
    let mut index: usize = 0;
    proof {
        text::lemma_cut(source@, start as int, text::bytes(source@).len() as int);
        assert(rest@.take(0) =~= Seq::<char>::empty());
    }
    for c in it: rest.chars()
        invariant
            it.seq() == rest@,
            n == text::bytes(rest@).len(),
            start + n == text::bytes(source@).len(),
            rest@ == text::cut(source@, start as int, text::bytes(source@).len() as int),
            index == text::bytes(rest@.take(it.index())).len(),
            forall|i: int| 0 <= i < it.index() ==> pieces::name_part(#[trigger] rest@[i]),
    {
        let ghost k = it.index();
        proof {
            assert(rest@[k] == c);
            assert(rest@.take(k + 1) =~= rest@.take(k).push(c));
            text::lemma_bytes_push(rest@.take(k), c);
            text::lemma_prefix_boundary_at(rest@, k + 1);
        }
        if !is_name_part(c) {
            proof {
                lemma_name_length(rest@, k);
                text::lemma_cut_chars(rest@, 0, k);
                assert(rest@.take(0) =~= Seq::<char>::empty());
                assert(rest@.subrange(0, k) =~= rest@.take(k));
            }
            return slice(rest, 0, index).to_owned();
        }
        index = index + byte_count(c);
    }
    proof {
        lemma_name_length(rest@, rest@.len() as int);
        assert(rest@.take(rest@.len() as int) =~= rest@);
    }
    rest.to_owned()
}

/// Whether a tag is written for a Roblox class.
pub open spec fn intrinsic(config: Config, written: Seq<char>) -> bool {
    !written.contains('.') && resolving::class_of(config, written) is Some
}

fn is_intrinsic(config: &Config, written: &str) -> (r: bool)
    ensures
        r == intrinsic(*config, written@),
{
    !has_char(written, '.') && resolve_class(config, written).is_some()
}

/// What a name is bound through: what comes before its first dot.
pub open spec fn root_of(written: Seq<char>) -> Seq<char> {
    match pieces::split_of(written, '.') {
        Some((root, _)) => root,
        None => written,
    }
}

fn root<'a>(written: &'a str) -> (r: &'a str)
    ensures
        r@ == root_of(written@),
{
    match split_once(written, '.') {
        Some((root, _)) => root,
        None => written,
    }
}

/// A note on a name that the project spells its own way.
pub open spec fn spelling_note(canonical: Seq<char>, written: Seq<char>) -> Seq<char> {
    if canonical == written {
        Seq::empty()
    } else {
        prose::between(", written `"@, written, "` in this project"@)
    }
}

fn note_spelling(canonical: &str, written: &str) -> (r: String)
    ensures
        r@ == spelling_note(canonical@, written@),
{
    if same(canonical, written) {
        String::new()
    } else {
        around(", written `", written, "` in this project")
    }
}

/// What is said of a class.
pub open spec fn class_text(class: Seq<char>, written: Seq<char>) -> Seq<char> {
    let head = prose::between("```luau\n"@, class, "\n```\n\nRoblox class"@);
    let spelled = head + spelling_note(class, written);
    let inherited = match classes::superclass_of(class) {
        Some(parent) => spelled + prose::between("\n\nInherits `"@, parent, "`."@),
        None => spelled,
    };
    if classes::properties_of(class).contains("Text"@) {
        inherited + "\n\nText between the tags becomes its `Text` property."@
    } else {
        inherited
    }
}

/// What is said of a tag: the class that it stands for, the line that binds it,
/// or neither.
pub open spec fn tag_text(source: Seq<char>, config: Config, written: Seq<char>) -> Seq<char> {
    match resolving::class_of(config, written) {
        Some(class) => class_text(class, written),
        None => match bindings::binding_of(source, root_of(written)) {
            Some((start, _)) => prose::between(
                "```luau\n"@,
                written,
                "\n```\n\nComponent, bound on line "@,
            ) + decimal::decimal_of(
                (line_index::line_holding(source, start as int) + 1) as nat,
            ) + "."@,
            None => prose::between(
                "```luau\n"@,
                written,
                "\n```\n\nNot a Roblox class, and not bound in this file."@,
            ),
        },
    }
}

fn describe(document: &Document, config: &Config, written: &str) -> (r: String)
    requires
        document.wf(),
    ensures
        r@ == tag_text(document.text@, *config, written@),
{
    if let Some(class) = resolve_class(config, written) {
        let class = class.as_str();
        let mut text = around("```luau\n", class, "\n```\n\nRoblox class");
        let note = note_spelling(class, written);
        text.append(note.as_str());
        if let Some(parent) = superclass(class) {
            let inherits = around("\n\nInherits `", parent, "`.");
            text.append(inherits.as_str());
        }
        if has_text_property(class) {
            text.append("\n\nText between the tags becomes its `Text` property.");
        }
        return text;
    }
    match find(document.text.as_str(), root(written)) {
        Some((start, _)) => {
            let line: usize = document.index.line_of(start);
            let count: usize = document.index.line_count();
            assert(document.index.of(document.text@));
            assert(line < count);
            let number = decimal(line + 1);
            let mut text = around("```luau\n", written, "\n```\n\nComponent, bound on line ");
            text.append(number.as_str());
            text.append(".");
            text
        },
        // Neither a class nor bound. The compiler reports this as an error; the
        // hover says the same thing rather than inventing a description.
        None => around(
            "```luau\n",
            written,
            "\n```\n\nNot a Roblox class, and not bound in this file.",
        ),
    }
}

/// A description for an editor to show at a range, as JSON.
pub open spec fn hover_json(text: Seq<char>, range: JsonView) -> JsonView {
    JsonView::object().with("contents"@, prose::markdown_json(text)).with("range"@, range)
}

fn shown(text: &str, range: Json) -> (r: Json)
    ensures
        r@ == hover_json(text@, range@),
{
    Json::object().with("contents", markdown(text)).with("range", range)
}

/// What is said of a member of a class, as an attribute that was written for it.
pub open spec fn member_text(
    api: Option<&Api>,
    class: Seq<char>,
    canonical: Seq<char>,
    written: Seq<char>,
) -> Seq<char> {
    let known = api::known(api, class, canonical);
    let declared = match known {
        Some(member) => prose::fenced(prose::between(canonical, ": "@, member.luau_type)),
        None => prose::fenced(canonical),
    };
    let what = if classes::events_of(class).contains(canonical) {
        "\n\nEvent of `"@
    } else {
        "\n\nProperty of `"@
    };
    let by = match known {
        Some(member) => member.declared_by,
        None => class,
    };
    let named = declared + prose::between(what, by, "`"@) + spelling_note(canonical, written)
        + "."@;
    let handled = match known {
        Some(member) => match api::parameters_of(member.luau_type) {
            Some(parameters) => named + prose::between(
                "\n\nConnect a function of `("@,
                prose::joined(parameters, ", "@),
                ")`."@,
            ),
            None => named,
        },
        None => named,
    };
    match api::documented(api, known, canonical) {
        Some(docs) => handled + prose::between(
            "\n\n---\n\n"@,
            completion::markdown_of(docs.documentation),
            completion::learn_more(docs.learn_more_link),
        ),
        None => handled,
    }
}

/// A member's type, where it comes from, and what it does.
///
/// The name alone is the least useful thing we know about it. `MouseEnter` is
/// an event on `GuiObject` that hands a listener two numbers, and all three
/// facts are in files this server already reads.
pub fn describe_member(api: Option<&Api>, class: &str, canonical: &str, written: &str) -> (r: String)
    ensures
        r@ == member_text(api, class@, canonical@, written@),
{
    let known = know(api, class, canonical);
    let mut text = match &known {
        Some(member) => {
            let typed = around(canonical, ": ", member.luau_type.as_str());
            fence(typed.as_str())
        },
        // No definitions on this machine. The name and its kind is still more
        // than nothing, and is what we could always say.
        None => fence(canonical),
    };
    let what = if is_event(class, canonical) {
        "\n\nEvent of `"
    } else {
        "\n\nProperty of `"
    };
    let by = match &known {
        Some(member) => member.declared_by.as_str(),
        None => class,
    };
    let declared = around(what, by, "`");
    text.append(declared.as_str());
    let note = note_spelling(canonical, written);
    text.append(note.as_str());
    text.append(".");
    // What a handler is handed — the question a person asks right before
    // writing one.
    if let Some(member) = &known {
        if let Some(parameters) = member.event_parameters() {
            let list = join(&parameters, ", ");
            let connect = around("\n\nConnect a function of `(", list.as_str(), ")`.");
            text.append(connect.as_str());
        }
    }
    if let Some(docs) = documentation_of(api, &known, canonical) {
        let said = html_to_markdown(docs.documentation.as_str());
        let more = link(docs.learn_more_link.as_str());
        let rest = around("\n\n---\n\n", said.as_str(), more.as_str());
        text.append(rest.as_str());
    }
    text
}

/// The class and the attribute on it that a context asks about.
pub open spec fn asked_about(source: Seq<char>, config: Config, context: Context) -> Option<
    (Seq<char>, Seq<char>),
> {
    match context {
        Context::AttributeName { tag, start, prefix } => if prefix@.len() == 0 {
            None
        } else {
            match resolving::class_of(config, tag@) {
                Some(class) => Some((class, name_from(source, start as int))),
                None => None,
            }
        },
        _ => None,
    }
}

/// What is shown for an attribute name, given what the compiler reads it as.
pub open spec fn attribute_hover(
    source: Seq<char>,
    config: Config,
    api: Option<&Api>,
    context: Context,
    reading: Option<Seq<char>>,
) -> Option<JsonView> {
    match (asked_about(source, config, context), context) {
        (Some((class, written)), Context::AttributeName { start, .. }) => match resolving::accepted(
            class,
            reading,
        ) {
            Some(canonical) => Some(
                hover_json(
                    member_text(api, class, canonical, written),
                    completion::typed_range(source, start, written),
                ),
            ),
            None => None,
        },
        _ => None,
    }
}

/// An attribute name: its type, where it comes from, and what it does.
fn attribute_at(
    document: &Document,
    config: &Config,
    api: Option<&Api>,
    context: &Context,
) -> (r: (Option<Json>, Ghost<Option<Seq<char>>>))
    requires
        document.wf(),
        context.fits(document.text@),
    ensures
        match (r.0, attribute_hover(document.text@, *config, api, *context, r.1@)) {
            (Some(a), Some(b)) => a@ == b,
            (None, None) => true,
            _ => false,
        },
        asked_about(document.text@, *config, *context) matches Some(asked)
            ==> settings::readings(*config)[asked].contains(r.1@),
{
    let source = document.text.as_str();
    let (tag, start, prefix) = match context {
        Context::AttributeName { tag, start, prefix } => (tag.as_str(), *start, prefix.as_str()),
        _ => {
            return (None, Ghost(None));
        },
    };
    if prefix.is_empty() {
        return (None, Ghost(None));
    }
    // The scan reports the text *up to* the cursor, which is what completion
    // wants and the opposite of what hover does: nobody hovers the end of a
    // word. Read the whole name.
    proof {
        text::lemma_boundary_ends(source@);
    }
    let written = whole_name(source, start);
    let whole: usize = length(source);
    // A component's props are its own business; only an intrinsic has an API.
    let class = match resolve_class(config, tag) {
        Some(class) => class,
        None => {
            return (None, Ghost(None));
        },
    };
    let reading = read_attribute(config, class.as_str(), written.as_str());
    let ghost taken = text::view_of(reading);
    let canonical = match accept(class.as_str(), reading) {
        Some(canonical) => canonical,
        None => {
            return (None, Ghost(taken));
        },
    };
    let text = describe_member(api, class.as_str(), canonical.as_str(), written.as_str());
    assert(start + text::bytes(written@).len() <= whole);
    let range = document.range_at(start, start + length(written.as_str()));
    (Some(shown(text.as_str(), range)), Ghost(taken))
}

/// What is answered to a hover, given the elements of the file and what the
/// compiler reads an attribute as.
pub open spec fn hovered(
    source: Seq<char>,
    config: Config,
    api: Option<&Api>,
    context: Context,
    tags: Seq<Tag>,
    offset: usize,
    reading: Option<Seq<char>>,
) -> AnswerView {
    if context.is_luau() {
        AnswerView::Forward
    } else {
        match tag_found(source, context, tags, offset) {
            Some(tag) => {
                let ours = hover_json(tag_text(source, config, tag.name), tag.range);
                if intrinsic(config, tag.name) {
                    AnswerView::Ours(ours)
                } else {
                    AnswerView::Both { ours, at: tag.declared_at }
                }
            },
            None => match attribute_hover(source, config, api, context, reading) {
                Some(ours) => AnswerView::Ours(ours),
                None => AnswerView::Nothing,
            },
        }
    }
}

/// What to show at `offset`, where `scan` stands for the text around it.
pub fn hover(
    document: &Document,
    project: &Project,
    scan: &Scan,
    api: Option<&Api>,
    offset: usize,
) -> (r: Answer)
    requires
        document.wf(),
        scan.context.fits(document.text@),
    ensures
        exists|tags: Seq<Tag>, reading: Option<Seq<char>>|
            {
                &&& !scan.context.is_luau() ==> tree::treed(document.text@, tags)
                &&& tag_found(document.text@, scan.context, tags, offset) is None ==> (asked_about(
                    document.text@,
                    project.config,
                    scan.context,
                ) matches Some(asked) ==> settings::readings(project.config)[asked].contains(
                    reading,
                ))
                &&& r@ == #[trigger] hovered(
                    document.text@,
                    project.config,
                    api,
                    scan.context,
                    tags,
                    offset,
                    reading,
                )
            },
{
    if scan.context.forwards() {
        let r = Answer::Forward;
        assert(r@ == hovered(
            document.text@,
            project.config,
            api,
            scan.context,
            Seq::<Tag>::empty(),
            offset,
            None,
        ));
        return r;
    }
    let tags = tree::tree(document.text.as_str());
    let ghost mut taken: Option<Seq<char>> = None;
    let r = match tag_at(document, &scan.context, tags.as_slice(), offset) {
        Some(tag) => {
            let text = describe(document, &project.config, tag.name.as_str());
            let ours = shown(text.as_str(), tag.range);
            // A class is a string in the generated code and luau-lsp has nothing
            // to say about it; a component is an identifier and it has
            // everything.
            if is_intrinsic(&project.config, tag.name.as_str()) {
                Answer::Ours(ours)
            } else {
                Answer::Both { ours, at: tag.declared_at }
            }
        },
        None => {
            let (described, Ghost(reading)) = attribute_at(
                document,
                &project.config,
                api,
                &scan.context,
            );
            proof {
                taken = reading;
            }
            match described {
                Some(hover) => Answer::Ours(hover),
                None => Answer::Nothing,
            }
        },
    };
    assert(r@ == hovered(
        document.text@,
        project.config,
        api,
        scan.context,
        tags@,
        offset,
        taken,
    ));
    r
}

/// Where a definition is, as JSON.
pub open spec fn location_json(uri: Seq<char>, range: JsonView) -> JsonView {
    JsonView::object().with("uri"@, JsonView::Text(uri)).with("range"@, range)
}

/// What is answered to go-to-definition, given the elements of the file.
pub open spec fn defined(
    uri: Seq<char>,
    source: Seq<char>,
    config: Config,
    context: Context,
    tags: Seq<Tag>,
    offset: usize,
) -> AnswerView {
    if context.is_luau() {
        AnswerView::Forward
    } else {
        match tag_found(source, context, tags, offset) {
            Some(tag) => if intrinsic(config, tag.name) {
                AnswerView::Nothing
            } else {
                match bindings::binding_of(source, root_of(tag.name)) {
                    Some((start, end)) => AnswerView::Ours(
                        location_json(uri, document::range_at(source, start as int, end as int)),
                    ),
                    None => AnswerView::Nothing,
                }
            },
            None => AnswerView::Nothing,
        }
    }
}

/// Go-to-definition for a tag: an intrinsic has none, a component has its
/// binding.
pub fn definition(document: &Document, project: &Project, scan: &Scan, offset: usize) -> (r: Answer)
    requires
        document.wf(),
        scan.context.fits(document.text@),
    ensures
        exists|tags: Seq<Tag>|
            {
                &&& !scan.context.is_luau() ==> tree::treed(document.text@, tags)
                &&& r@ == #[trigger] defined(
                    document.uri@,
                    document.text@,
                    project.config,
                    scan.context,
                    tags,
                    offset,
                )
            },
{
    if scan.context.forwards() {
        let r = Answer::Forward;
        assert(r@ == defined(
            document.uri@,
            document.text@,
            project.config,
            scan.context,
            Seq::<Tag>::empty(),
            offset,
        ));
        return r;
    }
    let tags = tree::tree(document.text.as_str());
    let r = match tag_at(document, &scan.context, tags.as_slice(), offset) {
        // A class is not defined anywhere in this project, and sending someone
        // to the nearest binding of the same name would be a lie.
        Some(tag) => if is_intrinsic(&project.config, tag.name.as_str()) {
            Answer::Nothing
        } else {
            // A dotted `<Foo.Bar/>` is bound through its root.
            match find(document.text.as_str(), root(tag.name.as_str())) {
                Some((start, end)) => Answer::Ours(
                    Json::object().with("uri", Json::text(document.uri.as_str())).with(
                        "range",
                        document.range_at(start, end),
                    ),
                ),
                None => Answer::Nothing,
            }
        },
        None => Answer::Nothing,
    };
    assert(r@ == defined(
        document.uri@,
        document.text@,
        project.config,
        scan.context,
        tags@,
        offset,
    ));
    r
}

/// Whether a hover says some text of some range.
pub open spec fn says(hover: JsonView, text: Seq<char>, range: JsonView) -> bool {
    &&& hover.get("range"@) == Some(range)
    &&& hover.get("contents"@) == Some(prose::markdown_json(text))
}

/// Whether a hover is about one of an element's names: the one that is pointed at
/// is what it covers, and what it says is said of that name.
pub open spec fn is_about(
    source: Seq<char>,
    config: Config,
    tag: Tag,
    offset: usize,
    hover: JsonView,
) -> bool {
    match hover.get("range"@) {
        Some(range) => match document::byte_range_of(source, range) {
            Some((start, end)) => {
                &&& start <= offset <= end
                &&& text::cut(source, start, end) == tag.name@
                &&& says(hover, tag_text(source, config, tag.name@), range)
            },
            None => false,
        },
        None => false,
    }
}

/// Pointing at an element's name, in either half, answers about that name and
/// covers it. A class is answered for here alone; anything else is asked of
/// luau-lsp too, at the element's opening name.
///
/// A name that begins with a line feed or ends with a carriage return, which no
/// tag has, could not be said by a position.
#[verifier::rlimit(40)]
pub proof fn law_a_hover_covers_the_name_it_is_about(
    source: Seq<char>,
    config: Config,
    api: Option<&Api>,
    context: Context,
    tags: Seq<Tag>,
    offset: usize,
    reading: Option<Seq<char>>,
)
    requires
        !context.is_luau(),
        tree::treed(source, tags),
        text::bytes(source).len() <= u32::MAX,
        forall|i: int|
            0 <= i < tree::flat(tags).len() ==> (#[trigger] tree::flat(tags)[i]).name@.len() > 0
                && document::kept_off_breaks(tree::flat(tags)[i].name@),
        exists|i: int|
            0 <= i < tree::flat(tags).len() && (#[trigger] tree::flat(tags)[i]).named(offset)
                is Some,
    ensures
        exists|i: int|
            {
                let tag = #[trigger] tree::flat(tags)[i];
                &&& 0 <= i < tree::flat(tags).len()
                &&& match hovered(source, config, api, context, tags, offset, reading) {
                    AnswerView::Ours(ours) => intrinsic(config, tag.name@) && is_about(
                        source,
                        config,
                        tag,
                        offset,
                        ours,
                    ),
                    AnswerView::Both { ours, at } => !intrinsic(config, tag.name@) && is_about(
                        source,
                        config,
                        tag,
                        offset,
                        ours,
                    ) && text::cut(source, at, at + text::bytes(tag.name@).len()) == tag.name@
                        && tag.start < at,
                    _ => false,
                }
            },
{
    let all = tree::flat(tags);
    lemma_first_named(all, offset);
    let (tag, span) = first_named(all, offset)->Some_0;
    let i = choose|i: int| 0 <= i < all.len() && all[i] == tag;
    assert(all[i].name@.len() > 0);
    tree::law_names_are_where_they_say(source, tags, i);
    let (start, end) = (span.0 as int, span.1 as int);
    assert(text::cuttable(source, start, end) && text::cut(source, start, end) == tag.name@);
    document::lemma_sayable(source, start, end);
    document::law_ranges_read_back(source, start, end);
    text::lemma_cut(source, tag.open_name.0 as int, tag.open_name.1 as int);
    lemma_hover_fields();
}

/// The first element that is pointed at is one of those there are.
proof fn lemma_first_named(tags: Seq<Tag>, offset: usize)
    ensures
        match first_named(tags, offset) {
            Some((tag, span)) => tags.contains(tag) && tag.named(offset) == Some(span),
            None => forall|i: int|
                0 <= i < tags.len() ==> (#[trigger] tags[i]).named(offset) is None,
        },
    decreases tags.len(),
{
    if tags.len() > 0 {
        let rest = tags.drop_first();
        lemma_first_named(rest, offset);
        if tags[0].named(offset) is None {
            match first_named(rest, offset) {
                Some((tag, _)) => {
                    let j = choose|j: int| 0 <= j < rest.len() && rest[j] == tag;
                    assert(tags[j + 1] == tag);
                },
                None => {
                    assert forall|i: int| 0 <= i < tags.len() implies (#[trigger] tags[i]).named(
                        offset,
                    ) is None by {
                        if i > 0 {
                            assert(rest[i - 1] == tags[i]);
                        }
                    }
                },
            }
        } else {
            assert(tags.contains(tags[0]));
        }
    }
}

/// What a hover and a location hold is what they were made of.
proof fn lemma_hover_fields()
    ensures
        forall|text: Seq<char>, range: JsonView|
            says(#[trigger] hover_json(text, range), text, range),
        forall|uri: Seq<char>, range: JsonView|
            #![trigger location_json(uri, range)]
            location_json(uri, range).get_str("uri"@) == Some(uri) && location_json(
                uri,
                range,
            ).get("range"@) == Some(range),
{
    json::lemma_gets();
    reveal_strlit("contents");
    reveal_strlit("range");
    reveal_strlit("uri");
    assert("contents"@.len() == 8 && "range"@.len() == 5 && "uri"@.len() == 3);
}

/// Whether a range is a whole word: every character in it can be part of a name,
/// and the one after it, if there is any, cannot.
pub open spec fn whole_word(source: Seq<char>, start: int, end: int) -> bool {
    let word = text::cut(source, start, end);
    let rest = text::cut(source, end, text::bytes(source).len() as int);
    &&& forall|i: int| 0 <= i < word.len() ==> pieces::name_part(#[trigger] word[i])
    &&& rest.len() > 0 ==> !pieces::name_part(rest[0])
}

/// Pointing at an attribute of a class covers the whole of its name, however much
/// of it stands before the cursor, and answers about the member that the compiler
/// reads that name as.
///
/// The place has to be one that a position can say.
#[verifier::rlimit(40)]
pub proof fn law_a_hover_covers_the_whole_attribute(
    source: Seq<char>,
    config: Config,
    api: Option<&Api>,
    context: Context,
    reading: Option<Seq<char>>,
)
    requires
        context.fits(source),
        context matches Context::AttributeName { start, .. } && line_index::addressable(
            source,
            start as int,
        ) && line_index::addressable(
            source,
            start + text::bytes(name_from(source, start as int)).len(),
        ),
        attribute_hover(source, config, api, context, reading) is Some,
    ensures
        ({
            let ours = attribute_hover(source, config, api, context, reading)->Some_0;
            match (context, ours.get("range"@)) {
                (Context::AttributeName { tag, start, .. }, Some(range)) => match (
                    document::byte_range_of(source, range),
                    resolving::class_of(config, tag@),
                    resolving::accepted(resolving::class_of(config, tag@)->Some_0, reading),
                ) {
                    (Some((from, to)), Some(class), Some(canonical)) => {
                        &&& from == start
                        &&& whole_word(source, from, to)
                        &&& says(
                            ours,
                            member_text(api, class, canonical, text::cut(source, from, to)),
                            range,
                        )
                    },
                    _ => false,
                },
                _ => false,
            }
        }),
{
    if let Context::AttributeName { start, .. } = context {
        let written = name_from(source, start as int);
        let whole = text::bytes(source).len() as int;
        let (from, to) = (start as int, start + text::bytes(written).len());
        text::lemma_boundary_ends(source);
        text::lemma_boundary_range(source, to);
        document::law_ranges_read_back(source, from, to);
        lemma_hover_fields();
        let rest = text::cut(source, from, whole);
        text::lemma_cut(source, from, whole);
        lemma_name_stops(rest);
        let n = name_length(rest);
        let tail = rest.skip(n);
        assert(rest =~= written + tail);
        text::lemma_bytes_concat(written, tail);
        text::lemma_cut(source, from, to);
        text::lemma_cut(source, to, whole);
        let b = text::bytes(rest);
        assert(b.subrange(0, to - from) =~= text::bytes(written));
        assert(b.subrange(0, to - from) =~= text::bytes(source).subrange(from, to));
        text::lemma_bytes_injective(text::cut(source, from, to), written);
        assert(b.subrange(to - from, whole - from) =~= text::bytes(tail));
        assert(b.subrange(to - from, whole - from) =~= text::bytes(source).subrange(to, whole));
        text::lemma_bytes_injective(text::cut(source, to, whole), tail);
    }
}

/// A name goes as far as its characters do.
proof fn lemma_name_stops(text: Seq<char>)
    ensures
        0 <= name_length(text) <= text.len(),
        forall|i: int| 0 <= i < name_length(text) ==> pieces::name_part(#[trigger] text[i]),
        name_length(text) < text.len() ==> !pieces::name_part(text[name_length(text)]),
    decreases text.len(),
{
    if text.len() > 0 && pieces::name_part(text[0]) {
        let rest = text.drop_first();
        lemma_name_stops(rest);
        assert forall|i: int| 0 <= i < name_length(text) implies pieces::name_part(
            #[trigger] text[i],
        ) by {
            if i > 0 {
                assert(rest[i - 1] == text[i]);
            }
        }
    }
}

/// The definition of a component is where the file binds its name, or, of a dotted
/// one, the first part of it: that is what stands there. A class has none, and nor
/// has a name that the file does not bind.
pub proof fn law_a_definition_is_where_the_name_is_bound(
    uri: Seq<char>,
    source: Seq<char>,
    config: Config,
    context: Context,
    tags: Seq<Tag>,
    offset: usize,
)
    requires
        !context.is_luau(),
        text::bytes(source).len() <= u32::MAX,
    ensures
        match tag_found(source, context, tags, offset) {
            Some(tag) => {
                let root = root_of(tag.name);
                match defined(uri, source, config, context, tags, offset) {
                    AnswerView::Ours(location) => {
                        &&& !intrinsic(config, tag.name)
                        &&& location.get_str("uri"@) == Some(uri)
                        &&& location.get("range"@) is Some
                        &&& bindings::binding_of(source, root) matches Some((start, end))
                            && (bindings::holds(source, start as int, end as int, root)
                            && root.len() > 0 && document::kept_off_breaks(root)
                            ==> document::reads(source, location.get("range"@)->Some_0, root)
                            && document::byte_range_of(source, location.get("range"@)->Some_0)
                            == Some((start as int, end as int)))
                    },
                    answer => answer is Nothing && (intrinsic(config, tag.name)
                        || bindings::binding_of(source, root) is None),
                }
            },
            None => defined(uri, source, config, context, tags, offset) is Nothing,
        },
{
    lemma_hover_fields();
    if let Some(tag) = tag_found(source, context, tags, offset) {
        let root = root_of(tag.name);
        if let Some((start, end)) = bindings::binding_of(source, root) {
            if bindings::holds(source, start as int, end as int, root) && root.len() > 0
                && document::kept_off_breaks(root) {
                document::lemma_sayable(source, start as int, end as int);
                document::law_ranges_read_back(source, start as int, end as int);
            }
        }
    }
}

/// The line that a hover gives for a component is the line, counted from one, on
/// which its definition begins.
pub proof fn law_a_hover_gives_the_line_of_the_definition(
    source: Seq<char>,
    config: Config,
    written: Seq<char>,
)
    requires
        resolving::class_of(config, written) is None,
        bindings::binding_of(source, root_of(written)) matches Some((start, _))
            && text::boundary(source, start as int),
        text::bytes(source).len() <= u32::MAX,
    ensures
        ({
            let start = bindings::binding_of(source, root_of(written))->Some_0.0;
            let line = line_index::position_of(source, start as int).line;
            exists|head: Seq<char>|
                tag_text(source, config, written) == #[trigger] (head + decimal::decimal_of(
                    (line + 1) as nat,
                )) + "."@
        }),
{
    let start = bindings::binding_of(source, root_of(written))->Some_0.0 as int;
    text::lemma_boundary_range(source, start);
    line_index::lemma_floor_fixed(source, start);
    line_index::lemma_line_fits(source, start);
    let head = prose::between("```luau\n"@, written, "\n```\n\nComponent, bound on line "@);
    let line = line_index::position_of(source, start).line;
    assert(tag_text(source, config, written) == (head + decimal::decimal_of((line + 1) as nat))
        + "."@);
}

/// What is said of a class begins with its name, and tells what it inherits from,
/// if it inherits from anything.
pub proof fn law_a_class_says_what_it_inherits(class: Seq<char>, written: Seq<char>)
    ensures
        pieces::begins(class_text(class, written), "```luau\n"@ + class),
        match classes::superclass_of(class) {
            Some(parent) => exists|a: Seq<char>, b: Seq<char>|
                class_text(class, written) == #[trigger] (a + prose::between(
                    "\n\nInherits `"@,
                    parent,
                    "`."@,
                ) + b),
            None => true,
        },
{
    let head = prose::between("```luau\n"@, class, "\n```\n\nRoblox class"@);
    let spelled = head + spelling_note(class, written);
    let tail = if classes::properties_of(class).contains("Text"@) {
        "\n\nText between the tags becomes its `Text` property."@
    } else {
        Seq::empty()
    };
    let whole = class_text(class, written);
    let lead = "```luau\n"@ + class;
    assert(whole.take(lead.len() as int) =~= lead);
    if let Some(parent) = classes::superclass_of(class) {
        assert(whole =~= spelled + prose::between("\n\nInherits `"@, parent, "`."@) + tail);
    }
}

/// What is answered for here alone is just what the compiler takes for a class.
pub proof fn law_only_classes_are_ours_alone(
    config: Config,
    bound: Set<Seq<char>>,
    name: TagName,
)
    requires
        match name {
            TagName::Simple(simple) => !simple@.contains('.'),
            TagName::Member(parts) => parts@.len() > 1,
        },
    ensures
        intrinsic(config, name.written()) <==> resolving::meaning_of(config, bound, name)
            is Intrinsic,
{
    if let TagName::Member(parts) = name {
        let before = syntax::dotted(parts@.drop_last());
        reveal_strlit(".");
        assert(syntax::dotted(parts@)[before.len() as int] == '.');
    }
}

} // verus!
