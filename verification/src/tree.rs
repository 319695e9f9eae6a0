//! The element tree, flattened into the tag occurrences features actually ask
//! about.
//!
//! Document symbols want the nesting, semantic tokens and hover want individual
//! tag names, and rename wants an open/close *pair*. All three come off the same
//! walk, so they cannot disagree about what an element is.
//!
//! Nested LuauX inside a captured expression is walked too, which is what makes
//! `{cond and <Row/> or nil}` appear in the outline like anything else.

use vstd::prelude::*;
use vstd::string::*;

use crate::holes::{self, fill};
use crate::regions::{self, regions};
use crate::syntax::{
    self, ElementNode, Extent, Hole, Item, Markup, Nested, Prop, PropValue, TagName,
};
use crate::text::{self, ends_with, length, rfind, same, trim, Edge};

verus! {

/// One element, with the spans of the names as written.
#[derive(Debug)]
pub struct Tag {
    pub name: String,
    /// Whole element, `<` to `>`.
    pub start: usize,
    pub end: usize,
    /// The name in the opening tag.
    pub open_name: (usize, usize),
    /// The name in the closing tag, absent when self-closing or a fragment.
    pub close_name: Option<(usize, usize)>,
    /// A `Name="…"` attribute, for the outline.
    pub label: Option<String>,
    pub children: Vec<Tag>,
}

/// A tag, as plain values.
#[verifier::ext_equal]
pub struct TagView {
    pub name: Seq<char>,
    pub start: int,
    pub end: int,
    pub open_name: (int, int),
    pub close_name: Option<(int, int)>,
    pub label: Option<Seq<char>>,
    pub children: Seq<TagView>,
}

pub open spec fn tag_view(tag: Tag) -> TagView
    decreases tag,
{
    TagView {
        name: tag.name@,
        start: tag.start as int,
        end: tag.end as int,
        open_name: (tag.open_name.0 as int, tag.open_name.1 as int),
        close_name: match tag.close_name {
            Some((a, b)) => Some((a as int, b as int)),
            None => None,
        },
        label: match tag.label {
            Some(label) => Some(label@),
            None => None,
        },
        children: tags_view(tag.children@),
    }
}

pub open spec fn tags_view(tags: Seq<Tag>) -> Seq<TagView>
    decreases tags,
{
    if tags.len() == 0 {
        Seq::empty()
    } else {
        tags_view(tags.drop_last()).push(tag_view(tags.last()))
    }
}

pub proof fn lemma_tags_view(tags: Seq<Tag>)
    ensures
        tags_view(tags).len() == tags.len(),
        forall|i: int|
            0 <= i < tags.len() ==> #[trigger] tags_view(tags)[i] == tag_view(tags[i]),
    decreases tags.len(),
{
    if tags.len() > 0 {
        lemma_tags_view(tags.drop_last());
    }
}

proof fn lemma_tags_view_push(tags: Seq<Tag>, tag: Tag)
    ensures
        tags_view(tags.push(tag)) == tags_view(tags).push(tag_view(tag)),
{
    assert(tags.push(tag).drop_last() =~= tags);
}

proof fn lemma_tags_view_concat(a: Seq<Tag>, b: Seq<Tag>)
    ensures
        tags_view(a + b) == tags_view(a) + tags_view(b),
    decreases b.len(),
{
    if b.len() == 0 {
        assert(a + b =~= a);
        assert(tags_view(a) + tags_view(b) =~= tags_view(a));
    } else {
        lemma_tags_view_concat(a, b.drop_last());
        assert((a + b).drop_last() =~= a + b.drop_last());
        assert(tags_view(a + b) =~= tags_view(a) + tags_view(b));
    }
}

/// Where a name stands that opens at or after `from`, past any whitespace.
pub open spec fn name_span(source: Seq<char>, from: int, written: Seq<char>) -> (int, int) {
    let start = syntax::past_blanks(text::bytes(source), from);
    (start, start + text::bytes(written).len())
}

/// Where the name stands in the closing tag of an element: after the last `</`
/// of its span, past any whitespace, if it is really there. A self-closing
/// element has no such tag, whatever its attributes hold.
pub open spec fn close_name_of(source: Seq<char>, span: Extent, written: Seq<char>) -> Option<
    (int, int),
> {
    if !text::cuttable(source, span.start as int, span.end as int) {
        None
    } else {
        let inside = text::bytes(source).subrange(span.start as int, span.end as int);
        if text::occurs(inside, text::bytes("/>"@), inside.len() - text::bytes("/>"@).len()) {
            None
        } else {
            match text::rfound(
                inside,
                text::bytes("</"@),
                inside.len() - text::bytes("</"@).len(),
            ) {
                None => None,
                Some(at) => {
                    let (start, end) = name_span(source, span.start + at + 2, written);
                    if name_span(source, span.start + 1, written).1 <= start && end <= span.end
                        && text::cuttable(source, start, end) && text::cut(source, start, end)
                        == written {
                        Some((start, end))
                    } else {
                        None
                    }
                },
            }
        }
    }
}

/// The first `Name="…"` among attributes, without its quotes.
pub open spec fn label_of(attributes: Seq<Prop>) -> Option<Seq<char>>
    decreases attributes.len(),
{
    if attributes.len() == 0 {
        None
    } else {
        match attributes[0] {
            Prop::Named {
                name,
                value: PropValue::StringLiteral(literal),
                ..
            } if name@ == "Name"@ => Some(text::trimmed(literal@, Edge::Quotes)),
            _ => label_of(attributes.drop_first()),
        }
    }
}

/// Tags in the order in which they start, those that start together in the
/// order in which they came.
pub open spec fn by_start(tags: Seq<TagView>) -> Seq<TagView>
    decreases tags.len(),
{
    if tags.len() == 0 {
        Seq::empty()
    } else {
        let rest = by_start(tags.drop_last());
        rest.insert(starting_by(rest, tags.last().start), tags.last())
    }
}

/// How many tags come before the last ones that all start after `start`.
pub open spec fn starting_by(tags: Seq<TagView>, start: int) -> int
    decreases tags.len(),
{
    if tags.len() == 0 || tags.last().start <= start {
        tags.len() as int
    } else {
        starting_by(tags.drop_last(), start)
    }
}

/// The element or fragment a node is, with its descendants.
pub open spec fn tag_of(source: Seq<char>, node: Markup) -> TagView
    decreases node,
{
    match node {
        Markup::Element(element) => TagView {
            name: element.name.written(),
            start: element.span.start as int,
            end: element.span.end as int,
            open_name: name_span(source, element.span.start + 1, element.name.written()),
            close_name: close_name_of(source, element.span, element.name.written()),
            label: label_of(element.attributes@),
            children: by_start(
                items_tags(source, element.children@) + props_tags(source, element.attributes@),
            ),
        },
        Markup::Fragment(fragment) => TagView {
            name: Seq::empty(),
            start: fragment.span.start as int,
            end: fragment.span.end as int,
            // `<>` has a name of length zero, which is still a position.
            open_name: (fragment.span.start + 1, fragment.span.start + 1),
            close_name: None,
            label: None,
            children: items_tags(source, fragment.children@),
        },
    }
}

/// The elements among children, those in captured expressions too.
pub open spec fn items_tags(source: Seq<char>, items: Seq<Item>) -> Seq<TagView>
    decreases items,
{
    if items.len() == 0 {
        Seq::empty()
    } else {
        items_tags(source, items.drop_last()) + item_tags(source, items.last())
    }
}

pub open spec fn item_tags(source: Seq<char>, item: Item) -> Seq<TagView>
    decreases item,
{
    match item {
        Item::Node(node) => seq![tag_of(source, node)],
        Item::Expression { hole, .. } => hole_tags(source, hole),
        _ => Seq::empty(),
    }
}

/// The elements inside the expressions of attributes.
pub open spec fn props_tags(source: Seq<char>, props: Seq<Prop>) -> Seq<TagView>
    decreases props,
{
    if props.len() == 0 {
        Seq::empty()
    } else {
        props_tags(source, props.drop_last()) + prop_tags(source, props.last())
    }
}

pub open spec fn prop_tags(source: Seq<char>, prop: Prop) -> Seq<TagView>
    decreases prop,
{
    match prop {
        Prop::Spread { hole, .. } => hole_tags(source, hole),
        Prop::Named { value: PropValue::Expression(hole), .. } => hole_tags(source, hole),
        _ => Seq::empty(),
    }
}

/// The elements inside a `{…}`.
pub open spec fn hole_tags(source: Seq<char>, hole: Option<Hole>) -> Seq<TagView>
    decreases hole,
{
    match hole {
        Some(hole) => nested_tags(source, hole.nested@),
        None => Seq::empty(),
    }
}

pub open spec fn nested_tags(source: Seq<char>, nested: Seq<Nested>) -> Seq<TagView>
    decreases nested,
{
    if nested.len() == 0 {
        Seq::empty()
    } else {
        let before = nested_tags(source, nested.drop_last());
        match nested.last().node {
            Some(node) => before.push(tag_of(source, node)),
            None => before,
        }
    }
}

/// The tag of each node.
pub open spec fn nodes_tags(source: Seq<char>, nodes: Seq<Markup>) -> Seq<TagView> {
    nodes.map_values(|node: Markup| tag_of(source, node))
}

/// Whether these are the outermost regions of a file, every `{…}` looked into
/// and every part where the file has it.
pub open spec fn forest(source: Seq<char>, nodes: Seq<Markup>) -> bool {
    &&& nodes.len() == regions::regions_of(source).len()
    &&& forall|i: int|
        0 <= i < nodes.len() ==> holes::filled(
            source,
            regions::regions_of(source)[i].node,
            #[trigger] nodes[i],
        ) && syntax::placed(source, nodes[i])
}

/// Whether these are the outermost elements of a file, with their descendants.
pub open spec fn treed(source: Seq<char>, tags: Seq<Tag>) -> bool {
    exists|nodes: Seq<Markup>| #[trigger]
        forest(source, nodes) && tags_view(tags) == nodes_tags(source, nodes)
}

/// Whether an offset lies within a span, its end included.
pub open spec fn touches(span: (usize, usize), offset: usize) -> bool {
    span.0 <= offset <= span.1
}

impl Tag {
    /// Which of an element's names an offset is on, the opening one first.
    pub open spec fn named(self, offset: usize) -> Option<(usize, usize)> {
        if touches(self.open_name, offset) {
            Some(self.open_name)
        } else {
            match self.close_name {
                Some(span) if touches(span, offset) => Some(span),
                _ => None,
            }
        }
    }

    /// Whether `offset` is on either of this element's names.
    pub fn name_at(&self, offset: usize) -> (r: Option<(usize, usize)>)
        ensures
            r == self.named(offset),
    {
        if self.open_name.0 <= offset && offset <= self.open_name.1 {
            return Some(self.open_name);
        }
        match self.close_name {
            Some(span) => if span.0 <= offset && offset <= span.1 {
                Some(span)
            } else {
                None
            },
            None => None,
        }
    }
}

/// Every outermost element in `source`, with its descendants.
pub fn tree(source: &str) -> (r: Vec<Tag>)
    ensures
        treed(source@, r@),
{
    let nodes = load(source);
    tags(source, &nodes)
}

/// Every outermost region of `source`, every `{…}` looked into.
pub fn load(source: &str) -> (r: Vec<Markup>)
    ensures
        forest(source@, r@),
{
    let found = regions(source);
    let ghost all = found@;
    let mut out: Vec<Markup> = Vec::new();
    for region in it: found
        invariant
            it.seq() == all,
            regions::laid_out(source@, all),
            out@.len() == it.index(),
            forall|i: int|
                0 <= i < out@.len() ==> holes::filled(source@, all[i].node, #[trigger] out@[i])
                    && syntax::placed(source@, out@[i]),
    {
        assert(region == all[it.index()]);
        out.push(fill(source, region.node));
    }
    out
}

/// The tag of each node.
pub fn tags(source: &str, nodes: &Vec<Markup>) -> (r: Vec<Tag>)
    requires
        forall|i: int| 0 <= i < nodes@.len() ==> syntax::placed(source@, #[trigger] nodes@[i]),
    ensures
        tags_view(r@) == nodes_tags(source@, nodes@),
{
    let mut out: Vec<Tag> = Vec::new();
    let mut i: usize = 0;
    while i < nodes.len()
        invariant
            i <= nodes@.len(),
            forall|j: int| 0 <= j < nodes@.len() ==> syntax::placed(source@, #[trigger] nodes@[j]),
            tags_view(out@) =~= nodes_tags(source@, nodes@.take(i as int)),
        decreases nodes@.len() - i,
    {
        let one = tag(source, &nodes[i]);
        proof {
            lemma_tags_view_push(out@, one);
        }
        out.push(one);
        i = i + 1;
    }
    assert(nodes@.take(nodes@.len() as int) =~= nodes@);
    out
}

fn tag(source: &str, node: &Markup) -> (r: Tag)
    requires
        syntax::placed(source@, *node),
    ensures
        tag_view(r) == tag_of(source@, *node),
    decreases node, 1int,
{
    match node {
        Markup::Element(element) => element_tag(source, element, node),
        Markup::Fragment(fragment) => Tag {
            name: String::new(),
            start: fragment.span.start,
            end: fragment.span.end,
            open_name: (fragment.span.start + 1, fragment.span.start + 1),
            close_name: None,
            label: None,
            children: children(source, &fragment.children, fragment.span),
        },
    }
}

fn element_tag(source: &str, element: &ElementNode, node: &Markup) -> (r: Tag)
    requires
        *node == Markup::Element(*element),
        syntax::placed(source@, *node),
    ensures
        tag_view(r) == tag_of(source@, *node),
    decreases node, 0int,
{
    let written = element.name.as_written();
    let open_name = open_name(source, element.span.start, written.as_str());
    let mut nested = children(source, &element.children, element.span);
    let mut within = attribute_regions(source, &element.attributes, element.span);
    proof {
        lemma_tags_view_concat(nested@, within@);
    }
    nested.append(&mut within);
    let sorted = sort_by_start(nested);
    let close_name = close_name(source, element, written.as_str(), open_name.1);
    Tag {
        name: written,
        start: element.span.start,
        end: element.span.end,
        open_name,
        close_name,
        label: label(&element.attributes),
        children: sorted,
    }
}

/// Where the name sits inside `< Frame …>`, given the offset of the `<`.
///
/// Found rather than computed, for the same reason as [`close_name`]: the parser
/// skips whitespace after the `<`, so `< Frame/>` is a legal element whose name
/// does **not** begin at `span.start + 1`. Computing it there underlines the
/// wrong bytes on hover, and rename works from these same spans — so it would
/// rewrite `" Fr"` and leave the rest, which is data loss.
///
/// Shared with [`crate::map_builder`], which needs the same offset to record the
/// run that lets luau-lsp answer about a component tag.
pub fn open_name(source: &str, open_angle: usize, written: &str) -> (r: (usize, usize))
    requires
        open_angle < usize::MAX,
        name_span(source@, open_angle + 1, written@).1 <= usize::MAX,
    ensures
        r.0 == name_span(source@, open_angle + 1, written@).0,
        r.1 == name_span(source@, open_angle + 1, written@).1,
{
    let start: usize = skip_blanks(source, open_angle + 1);
    (start, start + length(written))
}

/// The first offset at or after `from` that holds no ASCII whitespace.
fn skip_blanks(source: &str, from: usize) -> (r: usize)
    ensures
        r == syntax::past_blanks(text::bytes(source@), from as int),
{
    let b = source.as_bytes();
    let mut at: usize = from;
    while at < b.len() && (b[at] == 32 || b[at] == 9 || b[at] == 10 || b[at] == 12 || b[at] == 13)
        invariant
            b@ == text::bytes(source@),
            from <= at,
            at <= b@.len() || at == from,
            syntax::past_blanks(b@, from as int) == syntax::past_blanks(b@, at as int),
        decreases b@.len() - at,
    {
        at = at + 1;
    }
    at
}

/// Where the name sits inside `</Frame >`.
///
/// Found rather than computed, because whitespace is allowed on both sides of
/// the name and an off-by-one here would rename the wrong bytes.
fn close_name(source: &str, element: &ElementNode, written: &str, opened: usize) -> (r: Option<
    (usize, usize),
>)
    requires
        opened == name_span(source@, element.span.start + 1, written@).1,
    ensures
        match (r, close_name_of(source@, element.span, written@)) {
            (Some(a), Some(b)) => a.0 == b.0 && a.1 == b.1,
            (None, None) => true,
            _ => false,
        },
{
    let inside = match text::get(source, element.span.start, element.span.end) {
        Some(inside) => inside,
        None => {
            return None;
        },
    };
    if ends_with(inside, "/>") {
        return None;
    }
    let at: usize = match rfind(inside, "</") {
        Some(at) => at,
        None => {
            return None;
        },
    };
    proof {
        lemma_close_angle();
    }
    let n: usize = length(source);
    let start: usize = skip_blanks(source, element.span.start + at + 2);
    let count: usize = length(written);
    if start > n || count > n - start || start < opened || start + count > element.span.end {
        return None;
    }
    match text::get(source, start, start + count) {
        Some(name) => if same(name, written) {
            Some((start, start + count))
        } else {
            None
        },
        None => None,
    }
}

/// The encoding of `</` is two bytes.
proof fn lemma_close_angle()
    ensures
        text::bytes("</"@).len() == 2,
{
    reveal_strlit("</");
    assert(vstd::utf8::is_ascii_chars("</"@));
    vstd::utf8::is_ascii_chars_encode_utf8("</"@);
}

/// `Name="Header"` — the one attribute worth showing in an outline.
fn label(attributes: &Vec<Prop>) -> (r: Option<String>)
    ensures
        match (r, label_of(attributes@)) {
            (Some(a), Some(b)) => a@ == b,
            (None, None) => true,
            _ => false,
        },
{
    let mut i: usize = 0;
    assert(attributes@.skip(0) =~= attributes@);
    while i < attributes.len()
        invariant
            i <= attributes@.len(),
            label_of(attributes@) == label_of(attributes@.skip(i as int)),
        decreases attributes@.len() - i,
    {
        assert(attributes@.skip(i as int).drop_first() =~= attributes@.skip(i + 1));
        if let Prop::Named { name, value: PropValue::StringLiteral(literal), .. } = &attributes[i] {
            if same(name.as_str(), "Name") {
                return Some(trim(literal.as_str(), Edge::Quotes).to_owned());
            }
        }
        i = i + 1;
    }
    None
}

fn children(source: &str, items: &Vec<Item>, outer: Extent) -> (r: Vec<Tag>)
    requires
        forall|i: int|
            0 <= i < items@.len() ==> syntax::placed_child(source@, #[trigger] items@[i], outer),
    ensures
        tags_view(r@) == items_tags(source@, items@),
    decreases items,
{
    let mut out: Vec<Tag> = Vec::new();
    let mut i: usize = 0;
    while i < items.len()
        invariant
            i <= items@.len(),
            forall|j: int|
                0 <= j < items@.len() ==> syntax::placed_child(
                    source@,
                    #[trigger] items@[j],
                    outer,
                ),
            tags_view(out@) == items_tags(source@, items@.take(i as int)),
        decreases items@.len() - i,
    {
        proof {
            assert(items@.take(i + 1).drop_last() =~= items@.take(i as int));
            assert(items@.take(i + 1).last() == items@[i as int]);
            assert(items_tags(source@, items@.take(i + 1)) == items_tags(
                source@,
                items@.take(i as int),
            ) + item_tags(source@, items@[i as int]));
            assert(syntax::placed_child(source@, items@[i as int], outer));
        }
        match &items[i] {
            Item::Node(node) => {
                let one = tag(source, node);
                proof {
                    lemma_tags_view_push(out@, one);
                    assert(tags_view(out@).push(tag_view(one)) =~= tags_view(out@) + seq![
                        tag_view(one),
                    ]);
                }
                out.push(one);
            },
            // LuauX nested in a captured expression.
            Item::Expression { hole, .. } => {
                let mut more = embedded(source, hole);
                proof {
                    lemma_tags_view_concat(out@, more@);
                }
                out.append(&mut more);
            },
            _ => {
                assert(tags_view(out@) + Seq::<TagView>::empty() =~= tags_view(out@));
            },
        }
        i = i + 1;
    }
    assert(items@.take(items@.len() as int) =~= items@);
    out
}

fn attribute_regions(source: &str, props: &Vec<Prop>, outer: Extent) -> (r: Vec<Tag>)
    requires
        forall|i: int|
            0 <= i < props@.len() ==> syntax::placed_prop(source@, #[trigger] props@[i], outer),
    ensures
        tags_view(r@) == props_tags(source@, props@),
    decreases props,
{
    let mut out: Vec<Tag> = Vec::new();
    let mut i: usize = 0;
    while i < props.len()
        invariant
            i <= props@.len(),
            forall|j: int|
                0 <= j < props@.len() ==> syntax::placed_prop(source@, #[trigger] props@[j], outer),
            tags_view(out@) == props_tags(source@, props@.take(i as int)),
        decreases props@.len() - i,
    {
        proof {
            assert(props@.take(i + 1).drop_last() =~= props@.take(i as int));
            assert(props@.take(i + 1).last() == props@[i as int]);
            assert(props_tags(source@, props@.take(i + 1)) == props_tags(
                source@,
                props@.take(i as int),
            ) + prop_tags(source@, props@[i as int]));
            assert(syntax::placed_prop(source@, props@[i as int], outer));
        }
        match &props[i] {
            Prop::Spread { hole, .. } => {
                let mut more = embedded(source, hole);
                proof {
                    lemma_tags_view_concat(out@, more@);
                }
                out.append(&mut more);
            },
            Prop::Named { value: PropValue::Expression(hole), .. } => {
                let mut more = embedded(source, hole);
                proof {
                    lemma_tags_view_concat(out@, more@);
                }
                out.append(&mut more);
            },
            _ => {
                assert(tags_view(out@) + Seq::<TagView>::empty() =~= tags_view(out@));
            },
        }
        i = i + 1;
    }
    assert(props@.take(props@.len() as int) =~= props@);
    out
}

/// Elements inside a `{ … }`.
fn embedded(source: &str, hole: &Option<Hole>) -> (r: Vec<Tag>)
    requires
        syntax::placed_hole(source@, *hole),
    ensures
        tags_view(r@) == hole_tags(source@, *hole),
    decreases hole,
{
    let mut out: Vec<Tag> = Vec::new();
    if let Some(inner) = hole {
        let mut i: usize = 0;
        while i < inner.nested.len()
            invariant
                i <= inner.nested@.len(),
                *hole == Some(*inner),
                syntax::placed_hole(source@, *hole),
                tags_view(out@) == nested_tags(source@, inner.nested@.take(i as int)),
            decreases inner.nested@.len() - i,
        {
            proof {
                assert(inner.nested@.take(i + 1).drop_last() =~= inner.nested@.take(i as int));
                assert(syntax::placed_nested(source@, inner.nested@[i as int]));
            }
            if let Some(node) = &inner.nested[i].node {
                let one = tag(source, node);
                proof {
                    lemma_tags_view_push(out@, one);
                }
                out.push(one);
            }
            i = i + 1;
        }
        assert(inner.nested@.take(inner.nested@.len() as int) =~= inner.nested@);
    }
    out
}

/// Sorts tags by where they start, keeping those that start together in order.
fn sort_by_start(tags: Vec<Tag>) -> (r: Vec<Tag>)
    ensures
        tags_view(r@) == by_start(tags_view(tags@)),
{
    let ghost all = tags@;
    let mut out: Vec<Tag> = Vec::new();
    for tag in it: tags
        invariant
            it.seq() == all,
            tags_view(out@) == by_start(tags_view(all.take(it.index()))),
    {
        proof {
            assert(tag == all[it.index()]);
            assert(all.take(it.index() + 1) =~= all.take(it.index()).push(tag));
            lemma_tags_view_push(all.take(it.index()), tag);
            assert(tags_view(all.take(it.index())).push(tag_view(tag)).drop_last() =~= tags_view(
                all.take(it.index()),
            ));
        }
        let mut at: usize = out.len();
        assert(out@.take(out@.len() as int) =~= out@);
        while at > 0 && out[at - 1].start > tag.start
            invariant
                at <= out@.len(),
                starting_by(tags_view(out@), tag.start as int) == starting_by(
                    tags_view(out@.take(at as int)),
                    tag.start as int,
                ),
            decreases at,
        {
            proof {
                lemma_tags_view(out@.take(at as int));
                assert(out@.take(at as int).drop_last() =~= out@.take(at - 1));
                assert(tags_view(out@.take(at as int)).drop_last() =~= tags_view(
                    out@.take(at - 1),
                ));
            }
            at = at - 1;
        }
        proof {
            lemma_tags_view(out@.take(at as int));
            lemma_tags_view_insert(out@, at as int, tag);
        }
        out.insert(at, tag);
    }
    assert(all.take(all.len() as int) =~= all);
    out
}

proof fn lemma_tags_view_insert(tags: Seq<Tag>, at: int, tag: Tag)
    requires
        0 <= at <= tags.len(),
    ensures
        tags_view(tags.insert(at, tag)) == tags_view(tags).insert(at, tag_view(tag)),
{
    lemma_tags_view(tags);
    lemma_tags_view(tags.insert(at, tag));
    assert(tags_view(tags.insert(at, tag)) =~= tags_view(tags).insert(at, tag_view(tag)));
}

/// Tags with their descendants, each before its children.
pub open spec fn flat(tags: Seq<Tag>) -> Seq<Tag>
    decreases tags,
{
    if tags.len() == 0 {
        Seq::empty()
    } else {
        flat(tags.drop_last()) + (seq![tags.last()] + flat(tags.last().children@))
    }
}

/// Depth-first, outermost first.
pub fn flatten(tags: &[Tag]) -> (r: Vec<&Tag>)
    ensures
        r@.map_values(|tag: &Tag| *tag) == flat(tags@),
    decreases tags@,
{
    let mut out: Vec<&Tag> = Vec::new();
    let mut i: usize = 0;
    while i < tags.len()
        invariant
            i <= tags@.len(),
            out@.map_values(|tag: &Tag| *tag) =~= flat(tags@.take(i as int)),
        decreases tags@.len() - i,
    {
        let tag = &tags[i];
        assert(tags@.take(i + 1).drop_last() =~= tags@.take(i as int));
        assert(decreases_to!(tags@ => tags@[i as int]));
        out.push(tag);
        let mut more = flatten(tag.children.as_slice());
        out.append(&mut more);
        i = i + 1;
    }
    assert(tags@.take(tags@.len() as int) =~= tags@);
    out
}

/// Whether an offset lies within an element, its end included.
pub open spec fn holds(tag: Tag, offset: usize) -> bool {
    tag.start <= offset <= tag.end
}

/// The last of some tags whose span holds an offset.
pub open spec fn last_holding(tags: Seq<Tag>, offset: usize) -> Option<Tag>
    decreases tags.len(),
{
    if tags.len() == 0 {
        None
    } else if holds(tags.last(), offset) {
        Some(tags.last())
    } else {
        last_holding(tags.drop_last(), offset)
    }
}

/// The innermost element whose span holds `offset`.
pub fn innermost_at(tags: &[Tag], offset: usize) -> (r: Option<&Tag>)
    ensures
        match (r, last_holding(flat(tags@), offset)) {
            (Some(a), Some(b)) => *a == b,
            (None, None) => true,
            _ => false,
        },
{
    let all = flatten(tags);
    let ghost seen = flat(tags@);
    let mut i: usize = all.len();
    assert(seen.take(seen.len() as int) =~= seen);
    while i > 0
        invariant
            i <= all@.len(),
            seen == flat(tags@),
            all@.map_values(|tag: &Tag| *tag) == seen,
            last_holding(seen, offset) == last_holding(seen.take(i as int), offset),
        decreases i,
    {
        let tag = all[i - 1];
        assert(seen[i - 1] == *tag);
        assert(seen.take(i as int).drop_last() =~= seen.take(i - 1));
        assert(seen.take(i as int).last() == *tag);
        if tag.start <= offset && offset <= tag.end {
            return Some(tag);
        }
        i = i - 1;
    }
    None
}

/// Whether a name is written with a dot, which makes it a component whatever
/// else is true (no Roblox class has one).
pub fn is_dotted(name: &TagName) -> (r: bool)
    ensures
        r == (name is Member),
{
    matches!(name, TagName::Member(_))
}

/// No element inside the innermost one at an offset holds that offset.
pub proof fn law_the_innermost_element_wins(tags: Seq<Tag>, offset: usize)
    requires
        last_holding(flat(tags), offset) is Some,
    ensures
        ({
            let found = last_holding(flat(tags), offset)->Some_0;
            &&& holds(found, offset)
            &&& forall|i: int|
                0 <= i < flat(found.children@).len() ==> !holds(
                    #[trigger] flat(found.children@)[i],
                    offset,
                )
        }),
    decreases tags,
{
    reveal_with_fuel(last_holding, 2);
    let last = tags.last();
    let tail = seq![last] + flat(last.children@);
    assert(flat(tags) == flat(tags.drop_last()) + tail);
    lemma_last_holding_concat(flat(tags.drop_last()), tail, offset);
    lemma_last_holding_concat(seq![last], flat(last.children@), offset);
    if last_holding(flat(last.children@), offset) is Some {
        law_the_innermost_element_wins(last.children@, offset);
    } else if holds(last, offset) {
        lemma_none_holding(flat(last.children@), offset);
        assert(seq![last].last() == last);
    } else {
        assert(seq![last].drop_last() =~= Seq::<Tag>::empty());
        assert(seq![last].last() == last);
        law_the_innermost_element_wins(tags.drop_last(), offset);
    }
}

proof fn lemma_last_holding_concat(a: Seq<Tag>, b: Seq<Tag>, offset: usize)
    ensures
        last_holding(a + b, offset) == match last_holding(b, offset) {
            Some(tag) => Some(tag),
            None => last_holding(a, offset),
        },
    decreases b.len(),
{
    if b.len() == 0 {
        assert(a + b =~= a);
    } else {
        assert((a + b).drop_last() =~= a + b.drop_last());
        lemma_last_holding_concat(a, b.drop_last(), offset);
    }
}

proof fn lemma_none_holding(tags: Seq<Tag>, offset: usize)
    requires
        last_holding(tags, offset) is None,
    ensures
        forall|i: int| 0 <= i < tags.len() ==> !holds(#[trigger] tags[i], offset),
    decreases tags.len(),
{
    if tags.len() > 0 {
        lemma_none_holding(tags.drop_last(), offset);
        assert forall|i: int| 0 <= i < tags.len() implies !holds(#[trigger] tags[i], offset) by {
            if i < tags.len() - 1 {
                assert(tags.drop_last()[i] == tags[i]);
            }
        }
    }
}

/// Whether the names of a tag stand where it says: the opening one past its `<`,
/// and the closing one, if there is any, past that and before its end.
pub open spec fn stands(source: Seq<char>, tag: TagView) -> bool {
    tag.name.len() > 0 ==> {
        &&& tag.start < tag.open_name.0
        &&& tag.open_name.1 <= tag.end
        &&& text::cuttable(source, tag.open_name.0, tag.open_name.1)
        &&& text::cut(source, tag.open_name.0, tag.open_name.1) == tag.name
        &&& tag.close_name matches Some((start, end)) ==> {
            &&& tag.open_name.1 <= start
            &&& end <= tag.end
            &&& text::cuttable(source, start, end)
            &&& text::cut(source, start, end) == tag.name
        }
    }
}

/// Whether that holds of a tag and of every one inside it.
spec fn stands_deep(source: Seq<char>, tag: TagView) -> bool
    decreases tag,
{
    &&& stands(source, tag)
    &&& forall|i: int|
        0 <= i < tag.children.len() ==> stands_deep(source, #[trigger] tag.children[i])
}

/// Every tag of a file, however deep, has its names where it says: there the
/// file really holds the name, whatever whitespace surrounds it.
pub proof fn law_names_are_where_they_say(source: Seq<char>, tags: Seq<Tag>, i: int)
    requires
        treed(source, tags),
        0 <= i < flat(tags).len(),
    ensures
        stands(source, tag_view(flat(tags)[i])),
{
    let nodes = choose|nodes: Seq<Markup>| #[trigger]
        forest(source, nodes) && tags_view(tags) == nodes_tags(source, nodes);
    lemma_tags_view(tags);
    assert forall|j: int| 0 <= j < tags.len() implies stands_deep(
        source,
        tag_view(#[trigger] tags[j]),
    ) by {
        assert(tags_view(tags)[j] == nodes_tags(source, nodes)[j]);
        assert(syntax::placed(source, nodes[j]));
        lemma_tag_stands(source, nodes[j]);
    }
    lemma_flat_stands(source, tags, i);
}

proof fn lemma_flat_stands(source: Seq<char>, tags: Seq<Tag>, i: int)
    requires
        forall|j: int| 0 <= j < tags.len() ==> stands_deep(source, tag_view(#[trigger] tags[j])),
        0 <= i < flat(tags).len(),
    ensures
        stands(source, tag_view(flat(tags)[i])),
    decreases tags,
{
    let rest = flat(tags.drop_last());
    let last = tags.last();
    assert(last == tags[tags.len() - 1]);
    if i < rest.len() {
        assert forall|j: int| 0 <= j < tags.drop_last().len() implies stands_deep(
            source,
            tag_view(#[trigger] tags.drop_last()[j]),
        ) by {
            assert(tags.drop_last()[j] == tags[j]);
        }
        lemma_flat_stands(source, tags.drop_last(), i);
    } else if i > rest.len() {
        lemma_tags_view(last.children@);
        assert forall|j: int| 0 <= j < last.children@.len() implies stands_deep(
            source,
            tag_view(#[trigger] last.children@[j]),
        ) by {
            assert(stands_deep(source, tag_view(last).children[j]));
        }
        lemma_flat_stands(source, last.children@, i - rest.len() - 1);
    }
}

pub proof fn lemma_past_blanks(b: Seq<u8>, from: int)
    ensures
        from <= syntax::past_blanks(b, from),
    decreases b.len() - from,
{
    if 0 <= from < b.len() && syntax::ascii_blank(b[from]) {
        lemma_past_blanks(b, from + 1);
    }
}

proof fn lemma_tag_stands(source: Seq<char>, node: Markup)
    requires
        syntax::placed(source, node),
    ensures
        stands_deep(source, tag_of(source, node)),
    decreases node,
{
    let tag = tag_of(source, node);
    match node {
        Markup::Element(element) => {
            let written = element.name.written();
            let (start, end) = tag.open_name;
            lemma_past_blanks(text::bytes(source), element.span.start + 1);
            if written.len() > 0 {
                assert(text::occurs(text::bytes(source), text::bytes(written), start));
                text::lemma_occurs_boundaries(source, written, start);
                text::lemma_cut(source, start, end);
                text::lemma_bytes_injective(text::cut(source, start, end), written);
            }
            lemma_items_stand(source, element.children@, element.span);
            lemma_props_stand(source, element.attributes@, element.span);
            let all = items_tags(source, element.children@) + props_tags(
                source,
                element.attributes@,
            );
            lemma_by_start_stand(source, all);
        },
        Markup::Fragment(fragment) => {
            lemma_items_stand(source, fragment.children@, fragment.span);
        },
    }
}

/// Whether that holds of every one of some tags.
spec fn all_stand(source: Seq<char>, tags: Seq<TagView>) -> bool {
    forall|i: int| 0 <= i < tags.len() ==> stands_deep(source, #[trigger] tags[i])
}

proof fn lemma_both_stand(source: Seq<char>, a: Seq<TagView>, b: Seq<TagView>)
    requires
        all_stand(source, a),
        all_stand(source, b),
    ensures
        all_stand(source, a + b),
{
    assert forall|i: int| 0 <= i < (a + b).len() implies stands_deep(
        source,
        #[trigger] (a + b)[i],
    ) by {
        assert((a + b)[i] == if i < a.len() {
            a[i]
        } else {
            b[i - a.len()]
        });
    }
}

proof fn lemma_by_start_stand(source: Seq<char>, tags: Seq<TagView>)
    requires
        all_stand(source, tags),
    ensures
        all_stand(source, by_start(tags)),
    decreases tags.len(),
{
    if tags.len() > 0 {
        let rest = by_start(tags.drop_last());
        let at = starting_by(rest, tags.last().start);
        assert forall|i: int| 0 <= i < tags.drop_last().len() implies stands_deep(
            source,
            #[trigger] tags.drop_last()[i],
        ) by {
            assert(tags.drop_last()[i] == tags[i]);
        }
        lemma_by_start_stand(source, tags.drop_last());
        lemma_starting_by(rest, tags.last().start);
        assert(stands_deep(source, tags[tags.len() - 1]));
        assert forall|i: int| 0 <= i < by_start(tags).len() implies stands_deep(
            source,
            #[trigger] by_start(tags)[i],
        ) by {
            assert(by_start(tags)[i] == if i < at {
                rest[i]
            } else if i == at {
                tags.last()
            } else {
                rest[i - 1]
            });
        }
    }
}

proof fn lemma_starting_by(tags: Seq<TagView>, start: int)
    ensures
        0 <= starting_by(tags, start) <= tags.len(),
    decreases tags.len(),
{
    if tags.len() > 0 && tags.last().start > start {
        lemma_starting_by(tags.drop_last(), start);
    }
}

proof fn lemma_items_stand(source: Seq<char>, items: Seq<Item>, outer: Extent)
    requires
        forall|i: int|
            0 <= i < items.len() ==> syntax::placed_child(source, #[trigger] items[i], outer),
    ensures
        all_stand(source, items_tags(source, items)),
    decreases items,
{
    if items.len() > 0 {
        let last = items.last();
        assert(last == items[items.len() - 1]);
        assert forall|i: int| 0 <= i < items.drop_last().len() implies syntax::placed_child(
            source,
            #[trigger] items.drop_last()[i],
            outer,
        ) by {
            assert(items.drop_last()[i] == items[i]);
        }
        lemma_items_stand(source, items.drop_last(), outer);
        match last {
            Item::Node(node) => {
                lemma_tag_stands(source, node);
            },
            Item::Expression { hole, .. } => {
                lemma_hole_stands(source, hole);
            },
            _ => {},
        }
        let before = items_tags(source, items.drop_last());
        let more = item_tags(source, last);
        assert(all_stand(source, more));
        assert(items_tags(source, items) == before + more);
        lemma_both_stand(source, before, more);
    }
}

proof fn lemma_props_stand(source: Seq<char>, props: Seq<Prop>, outer: Extent)
    requires
        forall|i: int|
            0 <= i < props.len() ==> syntax::placed_prop(source, #[trigger] props[i], outer),
    ensures
        all_stand(source, props_tags(source, props)),
    decreases props,
{
    if props.len() > 0 {
        let last = props.last();
        assert(last == props[props.len() - 1]);
        assert forall|i: int| 0 <= i < props.drop_last().len() implies syntax::placed_prop(
            source,
            #[trigger] props.drop_last()[i],
            outer,
        ) by {
            assert(props.drop_last()[i] == props[i]);
        }
        lemma_props_stand(source, props.drop_last(), outer);
        match last {
            Prop::Spread { hole, .. } => {
                lemma_hole_stands(source, hole);
            },
            Prop::Named { value: PropValue::Expression(hole), .. } => {
                lemma_hole_stands(source, hole);
            },
            _ => {},
        }
        let before = props_tags(source, props.drop_last());
        let more = prop_tags(source, last);
        assert(all_stand(source, more));
        assert(props_tags(source, props) == before + more);
        lemma_both_stand(source, before, more);
    }
}

proof fn lemma_hole_stands(source: Seq<char>, hole: Option<Hole>)
    requires
        syntax::placed_hole(source, hole),
    ensures
        all_stand(source, hole_tags(source, hole)),
    decreases hole,
{
    if let Some(inner) = hole {
        lemma_nested_stand(source, inner.nested@);
    }
}

proof fn lemma_nested_stand(source: Seq<char>, nested: Seq<Nested>)
    requires
        forall|i: int| 0 <= i < nested.len() ==> syntax::placed_nested(source, #[trigger] nested[i]),
    ensures
        all_stand(source, nested_tags(source, nested)),
    decreases nested,
{
    if nested.len() > 0 {
        assert(nested.last() == nested[nested.len() - 1]);
        assert forall|i: int| 0 <= i < nested.drop_last().len() implies syntax::placed_nested(
            source,
            #[trigger] nested.drop_last()[i],
        ) by {
            assert(nested.drop_last()[i] == nested[i]);
        }
        lemma_nested_stand(source, nested.drop_last());
        if let Some(node) = nested.last().node {
            lemma_tag_stands(source, node);
        }
    }
}

/// Whether tags come in the order in which they start.
pub open spec fn in_order(tags: Seq<TagView>) -> bool {
    forall|i: int, j: int|
        #![trigger tags[i], tags[j]]
        0 <= i < j < tags.len() ==> tags[i].start <= tags[j].start
}

/// Putting tags in order loses none, makes none up, and does put them in order.
pub proof fn law_tags_are_put_in_order(tags: Seq<TagView>)
    ensures
        in_order(by_start(tags)),
        by_start(tags).to_multiset() == tags.to_multiset(),
    decreases tags.len(),
{
    broadcast use vstd::seq_lib::group_to_multiset_ensures;

    if tags.len() > 0 {
        let rest = by_start(tags.drop_last());
        let last = tags.last();
        let at = starting_by(rest, last.start);
        law_tags_are_put_in_order(tags.drop_last());
        lemma_starting_by(rest, last.start);
        lemma_parted(rest, last.start);
        let all = by_start(tags);
        assert(all == rest.insert(at, last));
        assert forall|i: int, j: int|
            #![trigger all[i], all[j]]
            0 <= i < j < all.len() implies all[i].start <= all[j].start by {
            let a = if i < at {
                i
            } else {
                i - 1
            };
            let b = if j < at {
                j
            } else {
                j - 1
            };
            assert(i != at ==> all[i] == rest[a]);
            assert(j != at ==> all[j] == rest[b]);
        }
        assert(all[at] == last);
        assert(all.remove(at) =~= rest);
        assert(all.contains(last));
        all.to_multiset_ensures();
        assert(all.to_multiset() =~= rest.to_multiset().insert(last));
        assert(tags =~= tags.drop_last().push(last));
        assert(tags.to_multiset() =~= tags.drop_last().to_multiset().insert(last));
    }
}

/// Where tags in order part: those before start no later, those after start later.
proof fn lemma_parted(tags: Seq<TagView>, start: int)
    requires
        in_order(tags),
    ensures
        forall|i: int|
            0 <= i < starting_by(tags, start) ==> (#[trigger] tags[i]).start <= start,
        forall|i: int|
            starting_by(tags, start) <= i < tags.len() ==> (#[trigger] tags[i]).start > start,
    decreases tags.len(),
{
    if tags.len() > 0 {
        if tags.last().start <= start {
            assert forall|i: int| 0 <= i < tags.len() implies (#[trigger] tags[i]).start <= start by {
                assert(tags[i].start <= tags[tags.len() - 1].start);
            }
        } else {
            let rest = tags.drop_last();
            assert forall|i: int, j: int|
                #![trigger rest[i], rest[j]]
                0 <= i < j < rest.len() implies rest[i].start <= rest[j].start by {
                assert(rest[i] == tags[i] && rest[j] == tags[j]);
            }
            lemma_parted(rest, start);
            lemma_starting_by(rest, start);
            assert forall|i: int| 0 <= i < starting_by(tags, start) implies (
            #[trigger] tags[i]).start <= start by {
                assert(rest[i] == tags[i]);
            }
            assert forall|i: int| starting_by(tags, start) <= i < tags.len() implies (
            #[trigger] tags[i]).start > start by {
                if i < rest.len() {
                    assert(rest[i] == tags[i]);
                }
            }
        }
    }
}

/// The closing half of an element is found, wherever its span ends in `</`, its
/// name and no other `<`, with whitespace around the name or without.
pub proof fn law_a_closing_name_is_found(source: Seq<char>, element: ElementNode, at: int)
    requires
        syntax::placed(source, Markup::Element(element)),
        text::cuttable(source, element.span.start as int, element.span.end as int),
        element.name.written().len() > 0,
        ({
            let b = text::bytes(source);
            let name = text::bytes(element.name.written());
            let from = syntax::past_blanks(b, at + 2);
            &&& element.span.start < at
            &&& b[at] == 60
            &&& b[at + 1] == 47
            &&& forall|p: int| at < p < element.span.end ==> #[trigger] b[p] != 60
            &&& text::occurs(b, name, from)
            &&& from + name.len() < element.span.end
            &&& b[element.span.end - 2] != 47
            &&& syntax::past_blanks(b, element.span.start + 1) + name.len() <= from
        }),
    ensures
        ({
            let from = syntax::past_blanks(text::bytes(source), at + 2);
            tag_of(source, Markup::Element(element)).close_name == Some(
                (from, from + text::bytes(element.name.written()).len()),
            )
        }),
{
    let b = text::bytes(source);
    let written = element.name.written();
    let name = text::bytes(written);
    let (start, end) = (element.span.start as int, element.span.end as int);
    let inside = b.subrange(start, end);
    let from = syntax::past_blanks(b, at + 2);
    lemma_past_blanks(b, at + 2);
    lemma_angles();
    let close = text::bytes("</"@);
    assert(!text::occurs(inside, text::bytes("/>"@), inside.len() - 2)) by {
        let there = inside.subrange(inside.len() - 2, inside.len() as int);
        assert(there[0] == b[end - 2]);
        assert(text::bytes("/>"@)[0] == 47);
    }
    text::lemma_rfound(inside, close, inside.len() - 2);
    assert(text::occurs(inside, close, at - start)) by {
        assert(inside.subrange(at - start, at - start + 2) =~= close);
    }
    assert forall|i: int| at - start < i <= inside.len() - 2 implies !text::occurs(
        inside,
        close,
        i,
    ) by {
        assert(inside.subrange(i, i + 2)[0] == b[start + i]);
        assert(b[start + i] != 60);
    }
    assert(text::rfound(inside, close, inside.len() - 2) == Some(at - start));
    text::lemma_occurs_boundaries(source, written, from);
    text::lemma_cut(source, from, from + name.len());
    text::lemma_bytes_injective(text::cut(source, from, from + name.len()), written);
}

/// A self-closing element has no closing half.
pub proof fn law_a_self_closing_element_has_one_name(source: Seq<char>, element: ElementNode)
    requires
        element.span.start + 2 <= element.span.end <= text::bytes(source).len(),
        text::bytes(source)[element.span.end - 2] == 47,
        text::bytes(source)[element.span.end - 1] == 62,
    ensures
        tag_of(source, Markup::Element(element)).close_name is None,
{
    let b = text::bytes(source);
    let inside = b.subrange(element.span.start as int, element.span.end as int);
    lemma_angles();
    assert(inside.subrange(inside.len() - 2, inside.len() as int) =~= text::bytes("/>"@));
}

/// What `</` and `/>` are encoded as.
proof fn lemma_angles()
    ensures
        text::bytes("</"@) =~= seq![60u8, 47u8],
        text::bytes("/>"@) =~= seq![47u8, 62u8],
{
    reveal_strlit("</");
    reveal_strlit("/>");
    assert(vstd::utf8::is_ascii_chars("</"@));
    vstd::utf8::is_ascii_chars_encode_utf8("</"@);
    assert(vstd::utf8::is_ascii_chars("/>"@));
    vstd::utf8::is_ascii_chars_encode_utf8("/>"@);
}

/// Whether one node stands right inside another: as a child, or in an expression
/// among its children or its attributes.
pub open spec fn right_inside(inner: Markup, outer: Markup) -> bool {
    match outer {
        Markup::Element(element) => {
            ||| among_items(inner, element.children@)
            ||| exists|i: int|
                0 <= i < element.attributes@.len() && in_prop(
                    inner,
                    #[trigger] element.attributes@[i],
                )
        },
        Markup::Fragment(fragment) => among_items(inner, fragment.children@),
    }
}

pub open spec fn among_items(inner: Markup, items: Seq<Item>) -> bool {
    exists|i: int| 0 <= i < items.len() && in_item(inner, #[trigger] items[i])
}

pub open spec fn in_item(inner: Markup, item: Item) -> bool {
    match item {
        Item::Node(node) => node == inner,
        Item::Expression { hole: Some(hole), .. } => in_nested(inner, hole.nested@),
        _ => false,
    }
}

pub open spec fn in_prop(inner: Markup, prop: Prop) -> bool {
    match prop {
        Prop::Spread { hole: Some(hole), .. } => in_nested(inner, hole.nested@),
        Prop::Named { value: PropValue::Expression(Some(hole)), .. } => in_nested(
            inner,
            hole.nested@,
        ),
        _ => false,
    }
}

pub open spec fn in_nested(inner: Markup, nested: Seq<Nested>) -> bool {
    exists|i: int| 0 <= i < nested.len() && (#[trigger] nested[i]).node == Some(inner)
}

/// No element is missing from the tree: whatever stands right inside another is
/// among its children there.
pub proof fn law_what_is_inside_is_a_child(source: Seq<char>, inner: Markup, outer: Markup)
    requires
        right_inside(inner, outer),
    ensures
        tag_of(source, outer).children.contains(tag_of(source, inner)),
{
    let tag = tag_of(source, inner);
    match outer {
        Markup::Element(element) => {
            let items = items_tags(source, element.children@);
            let props = props_tags(source, element.attributes@);
            let all = items + props;
            if among_items(inner, element.children@) {
                lemma_among_items(source, inner, element.children@);
                let k = choose|k: int| 0 <= k < items.len() && items[k] == tag;
                assert(all[k] == tag);
            } else {
                lemma_among_props(source, inner, element.attributes@);
                let k = choose|k: int| 0 <= k < props.len() && props[k] == tag;
                assert(all[items.len() + k] == tag);
            }
            law_tags_are_put_in_order(all);
            all.to_multiset_ensures();
            by_start(all).to_multiset_ensures();
            assert(all.to_multiset().count(tag) > 0);
        },
        Markup::Fragment(fragment) => {
            lemma_among_items(source, inner, fragment.children@);
        },
    }
}

proof fn lemma_among_nested(source: Seq<char>, inner: Markup, nested: Seq<Nested>)
    requires
        in_nested(inner, nested),
    ensures
        nested_tags(source, nested).contains(tag_of(source, inner)),
    decreases nested.len(),
{
    let rest = nested.drop_last();
    let before = nested_tags(source, rest);
    let all = nested_tags(source, nested);
    let i = choose|i: int| 0 <= i < nested.len() && (#[trigger] nested[i]).node == Some(inner);
    if i < rest.len() {
        assert(rest[i] == nested[i]);
        lemma_among_nested(source, inner, rest);
        let k = choose|k: int| 0 <= k < before.len() && before[k] == tag_of(source, inner);
        assert(all[k] == before[k]);
    } else {
        assert(all[before.len() as int] == tag_of(source, inner));
    }
}

proof fn lemma_among_items(source: Seq<char>, inner: Markup, items: Seq<Item>)
    requires
        among_items(inner, items),
    ensures
        items_tags(source, items).contains(tag_of(source, inner)),
    decreases items.len(),
{
    let rest = items.drop_last();
    let before = items_tags(source, rest);
    let more = item_tags(source, items.last());
    let all = items_tags(source, items);
    let i = choose|i: int| 0 <= i < items.len() && in_item(inner, #[trigger] items[i]);
    if i < rest.len() {
        assert(rest[i] == items[i]);
        lemma_among_items(source, inner, rest);
        let k = choose|k: int| 0 <= k < before.len() && before[k] == tag_of(source, inner);
        assert(all[k] == before[k]);
    } else {
        match items[i] {
            Item::Node(node) => {
                assert(more[0] == tag_of(source, inner));
                assert(all[before.len() as int] == more[0]);
            },
            Item::Expression { hole: Some(hole), .. } => {
                lemma_among_nested(source, inner, hole.nested@);
                let k = choose|k: int| 0 <= k < more.len() && more[k] == tag_of(source, inner);
                assert(all[before.len() + k] == more[k]);
            },
            _ => {},
        }
    }
}

proof fn lemma_among_props(source: Seq<char>, inner: Markup, props: Seq<Prop>)
    requires
        exists|i: int| 0 <= i < props.len() && in_prop(inner, #[trigger] props[i]),
    ensures
        props_tags(source, props).contains(tag_of(source, inner)),
    decreases props.len(),
{
    let rest = props.drop_last();
    let before = props_tags(source, rest);
    let more = prop_tags(source, props.last());
    let all = props_tags(source, props);
    let i = choose|i: int| 0 <= i < props.len() && in_prop(inner, #[trigger] props[i]);
    if i < rest.len() {
        assert(rest[i] == props[i]);
        lemma_among_props(source, inner, rest);
        let k = choose|k: int| 0 <= k < before.len() && before[k] == tag_of(source, inner);
        assert(all[k] == before[k]);
    } else {
        match props[i] {
            Prop::Spread { hole: Some(hole), .. } => {
                lemma_among_nested(source, inner, hole.nested@);
            },
            Prop::Named { value: PropValue::Expression(Some(hole)), .. } => {
                lemma_among_nested(source, inner, hole.nested@);
            },
            _ => {},
        }
        let k = choose|k: int| 0 <= k < more.len() && more[k] == tag_of(source, inner);
        assert(all[before.len() + k] == more[k]);
    }
}

/// Listing tags with their descendants lists every one of them, however deep.
pub proof fn law_every_descendant_is_listed(tags: Seq<Tag>, i: int)
    requires
        0 <= i < tags.len(),
    ensures
        flat(tags).contains(tags[i]),
        forall|tag: Tag|
            flat(tags[i].children@).contains(tag) ==> #[trigger] flat(tags).contains(tag),
    decreases tags.len(),
{
    let rest = flat(tags.drop_last());
    let last = tags.last();
    let inner = flat(last.children@);
    let all = flat(tags);
    if i < tags.len() - 1 {
        assert(tags.drop_last()[i] == tags[i]);
        law_every_descendant_is_listed(tags.drop_last(), i);
        let k = choose|k: int| 0 <= k < rest.len() && rest[k] == tags[i];
        assert(all[k] == tags[i]);
        assert forall|tag: Tag| flat(tags[i].children@).contains(tag) implies #[trigger] all.contains(
            tag,
        ) by {
            assert(rest.contains(tag));
            let k = choose|k: int| 0 <= k < rest.len() && rest[k] == tag;
            assert(all[k] == tag);
        }
    } else {
        assert(all[rest.len() as int] == last);
        assert forall|tag: Tag| flat(tags[i].children@).contains(tag) implies #[trigger] all.contains(
            tag,
        ) by {
            let k = choose|k: int| 0 <= k < inner.len() && inner[k] == tag;
            assert(all[rest.len() + 1 + k] == tag);
        }
    }
}

} // verus!
