//! Looking inside every `{…}` of a tree.
//!
//! The parser captures an expression without reading it, so LuauX nested in one
//! is still plain text at that point. It is found by scanning the captured
//! slice, and then read again where it stands in the file, so that every span
//! of it is in file coordinates.

use vstd::prelude::*;
use vstd::string::*;

use crate::regions::{self, braced, regions, Region};
use crate::syntax::{
    self, read_node, ElementNode, FragmentNode, Hole, Item, Markup, Nested, Prop, PropValue,
};
use crate::text::{self, slice};

verus! {

/// Whether `full` is `raw` with every `{…}` looked into.
pub open spec fn filled(source: Seq<char>, raw: Markup, full: Markup) -> bool
    decreases full,
{
    match (raw, full) {
        (Markup::Element(a), Markup::Element(b)) => {
            &&& a.name == b.name
            &&& a.meaning == b.meaning
            &&& a.span == b.span
            &&& a.attributes@.len() == b.attributes@.len()
            &&& forall|i: int|
                0 <= i < b.attributes@.len() ==> filled_prop(
                    source,
                    a.attributes@[i],
                    #[trigger] b.attributes@[i],
                )
            &&& a.children@.len() == b.children@.len()
            &&& forall|i: int|
                0 <= i < b.children@.len() ==> filled_item(
                    source,
                    a.children@[i],
                    #[trigger] b.children@[i],
                )
        },
        (Markup::Fragment(a), Markup::Fragment(b)) => {
            &&& a.span == b.span
            &&& a.children@.len() == b.children@.len()
            &&& forall|i: int|
                0 <= i < b.children@.len() ==> filled_item(
                    source,
                    a.children@[i],
                    #[trigger] b.children@[i],
                )
        },
        _ => false,
    }
}

pub open spec fn filled_prop(source: Seq<char>, raw: Prop, full: Prop) -> bool
    decreases full,
{
    match (raw, full) {
        (
            Prop::Named { name: a, key: k, value: PropValue::Expression(_), span: s },
            Prop::Named { name: b, key: l, value: PropValue::Expression(hole), span: t },
        ) => a == b && k == l && s == t && filled_hole(source, s.start as int, hole),
        (Prop::Named { .. }, Prop::Named { .. }) => raw == full,
        (Prop::Spread { span: s, .. }, Prop::Spread { hole, span: t }) => s == t && filled_hole(
            source,
            s.start as int,
            hole,
        ),
        _ => false,
    }
}

pub open spec fn filled_item(source: Seq<char>, raw: Item, full: Item) -> bool
    decreases full,
{
    match (raw, full) {
        (Item::Node(a), Item::Node(b)) => filled(source, a, b),
        (Item::Expression { span: s, .. }, Item::Expression { hole, span: t }) => s == t
            && filled_hole(source, s.start as int, hole),
        (Item::Text { .. }, Item::Text { .. }) => raw == full,
        (Item::Comment { .. }, Item::Comment { .. }) => raw == full,
        _ => false,
    }
}

/// Whether `hole` is what the first `{…}` at or after `from` holds: the trimmed
/// expression, and each region found in it as it reads in the file.
pub open spec fn filled_hole(source: Seq<char>, from: int, hole: Option<Hole>) -> bool
    decreases hole,
{
    match (regions::braced_of(source, from), hole) {
        (None, None) => true,
        (Some((start, end)), Some(hole)) => {
            let inner = regions::regions_of(text::cut(source, start, end));
            &&& hole.start == start
            &&& hole.end == end
            &&& hole.nested@.len() == inner.len()
            &&& forall|i: int|
                0 <= i < hole.nested@.len() ==> filled_nested(
                    source,
                    start,
                    inner[i],
                    #[trigger] hole.nested@[i],
                )
        },
        _ => false,
    }
}

pub open spec fn filled_nested(source: Seq<char>, at: int, region: Region, nested: Nested) -> bool
    decreases nested,
{
    &&& nested.start == at + region.start
    &&& nested.end == at + region.end
    &&& match (syntax::read(source, nested.start as int), nested.node) {
        (None, None) => true,
        (Some((raw, _)), Some(full)) => filled(source, raw, full),
        _ => false,
    }
}

/// Looks into every `{…}` of a tree.
pub fn fill(source: &str, node: Markup) -> (r: Markup)
    requires
        syntax::placed(source@, node),
    ensures
        filled(source@, node, r),
        syntax::placed(source@, r),
    decreases text::bytes(source@).len() - node.span().start, 1int,
{
    match node {
        Markup::Element(element) => {
            let ElementNode { name, meaning, attributes, children, span } = element;
            let attributes = fill_props(source, attributes, span);
            let children = fill_items(source, children, span);
            Markup::Element(ElementNode { name, meaning, attributes, children, span })
        },
        Markup::Fragment(fragment) => {
            let FragmentNode { children, span } = fragment;
            let children = fill_items(source, children, span);
            Markup::Fragment(FragmentNode { children, span })
        },
    }
}

fn fill_props(source: &str, props: Vec<Prop>, outer: syntax::Extent) -> (r: Vec<Prop>)
    requires
        outer.start < outer.end <= text::bytes(source@).len(),
        forall|i: int|
            0 <= i < props@.len() ==> syntax::placed_prop(source@, #[trigger] props@[i], outer),
    ensures
        r@.len() == props@.len(),
        forall|i: int|
            0 <= i < r@.len() ==> filled_prop(source@, props@[i], #[trigger] r@[i])
                && syntax::placed_prop(source@, r@[i], outer),
    decreases text::bytes(source@).len() - outer.start, 0int,
{
    let ghost all = props@;
    let mut out: Vec<Prop> = Vec::new();
    for prop in it: props
        invariant
            it.seq() == all,
            outer.start < outer.end <= text::bytes(source@).len(),
            forall|i: int|
                0 <= i < all.len() ==> syntax::placed_prop(source@, #[trigger] all[i], outer),
            out@.len() == it.index(),
            forall|i: int|
                0 <= i < out@.len() ==> filled_prop(source@, all[i], #[trigger] out@[i])
                    && syntax::placed_prop(source@, out@[i], outer),
    {
        assert(prop == all[it.index()]);
        assert(syntax::placed_prop(source@, prop, outer));
        let full = match prop {
            Prop::Named { name, key, value, span } => match value {
                PropValue::Expression(_) => Prop::Named {
                    name,
                    key,
                    value: PropValue::Expression(hole_at(source, span.start)),
                    span,
                },
                other => Prop::Named { name, key, value: other, span },
            },
            Prop::Spread { span, .. } => Prop::Spread { hole: hole_at(source, span.start), span },
        };
        out.push(full);
    }
    out
}

fn fill_items(source: &str, items: Vec<Item>, outer: syntax::Extent) -> (r: Vec<Item>)
    requires
        outer.start < outer.end <= text::bytes(source@).len(),
        forall|i: int|
            0 <= i < items@.len() ==> syntax::placed_child(source@, #[trigger] items@[i], outer),
    ensures
        r@.len() == items@.len(),
        forall|i: int|
            0 <= i < r@.len() ==> filled_item(source@, items@[i], #[trigger] r@[i])
                && syntax::placed_child(source@, r@[i], outer),
    decreases text::bytes(source@).len() - outer.start, 0int,
{
    let ghost all = items@;
    let mut out: Vec<Item> = Vec::new();
    for item in it: items
        invariant
            it.seq() == all,
            outer.start < outer.end <= text::bytes(source@).len(),
            forall|i: int|
                0 <= i < all.len() ==> syntax::placed_child(source@, #[trigger] all[i], outer),
            out@.len() == it.index(),
            forall|i: int|
                0 <= i < out@.len() ==> filled_item(source@, all[i], #[trigger] out@[i])
                    && syntax::placed_child(source@, out@[i], outer),
    {
        assert(item == all[it.index()]);
        assert(syntax::placed_child(source@, item, outer));
        let full = match item {
            Item::Node(node) => Item::Node(fill(source, node)),
            Item::Expression { span, .. } => Item::Expression {
                hole: hole_at(source, span.start),
                span,
            },
            other => other,
        };
        out.push(full);
    }
    out
}

/// What the `{…}` at or after `from` holds.
pub fn hole_at(source: &str, from: usize) -> (r: Option<Hole>)
    ensures
        filled_hole(source@, from as int, r),
        syntax::placed_hole(source@, r),
    decreases text::bytes(source@).len() - from, 2int,
{
    match braced(source, from) {
        None => None,
        Some((start, end)) => {
            let inner = regions(slice(source, start, end));
            let mut nested: Vec<Nested> = Vec::new();
            let mut i: usize = 0;
            while i < inner.len()
                invariant
                    i <= inner@.len(),
                    from < start < end <= text::bytes(source@).len(),
                    text::cuttable(source@, start as int, end as int),
                    regions::laid_out(text::cut(source@, start as int, end as int), inner@),
                    text::bytes(text::cut(source@, start as int, end as int)).len() == end - start,
                    nested@.len() == i,
                    forall|j: int|
                        0 <= j < i ==> filled_nested(
                            source@,
                            start as int,
                            inner@[j],
                            #[trigger] nested@[j],
                        ) && syntax::placed_nested(source@, nested@[j]),
                decreases inner@.len() - i,
            {
                let (a, b) = (inner[i].start, inner[i].end);
                assert(inner@[i as int].start == a);
                proof {
                    text::lemma_boundary_inside(source@, start as int, end as int, a as int);
                }
                let node = match read_node(source, start + a) {
                    Some((node, _)) => Some(fill(source, node)),
                    None => None,
                };
                nested.push(Nested { start: start + a, end: start + b, node });
                i = i + 1;
            }
            Some(Hole { start, end, nested })
        },
    }
}

} // verus!
