//! Document symbols — the element tree as an outline.
//!
//! Cheap, because the tree already exists, and it is what makes a long file
//! navigable: a UI file is a shape, and a flat list of `local`s does not show it.

use vstd::prelude::*;
use vstd::string::*;

use crate::document::{self, Document};
use crate::json::{self, Json, JsonView};
use crate::line_index;
use crate::text;
use crate::tree::{self, Tag};

verus! {

/// LSP `SymbolKind`s.
pub const CLASS: u64 = 5;

pub const OBJECT: u64 = 19;

/// Where the name ends that an outline selects: no earlier than one past its
/// start, so that a fragment's can be selected too.
pub open spec fn selection_end(name: (usize, usize)) -> usize {
    if name.1 > name.0 || name.0 == usize::MAX {
        name.1
    } else {
        (name.0 + 1) as usize
    }
}

/// An element and what is inside it, as an outline.
pub open spec fn symbol_json(source: Seq<char>, tag: Tag) -> JsonView
    decreases tag,
{
    let value = JsonView::object().with(
        "name"@,
        JsonView::Text(
            if tag.name@.len() == 0 {
                "<>"@
            } else {
                tag.name@
            },
        ),
    ).with(
        "kind"@,
        JsonView::number(
            if tag.name@.len() == 0 {
                OBJECT
            } else {
                CLASS
            },
        ),
    ).with("range"@, document::range_at(source, tag.start as int, tag.end as int)).with(
        "selectionRange"@,
        document::range_at(source, tag.open_name.0 as int, selection_end(tag.open_name) as int),
    ).with("children"@, JsonView::Array(symbols_json(source, tag.children@)));
    match tag.label {
        Some(label) => value.with("detail"@, JsonView::Text(label@)),
        None => value,
    }
}

/// Elements as an outline, in order.
pub open spec fn symbols_json(source: Seq<char>, tags: Seq<Tag>) -> Seq<JsonView>
    decreases tags,
{
    if tags.len() == 0 {
        Seq::empty()
    } else {
        symbols_json(source, tags.drop_last()).push(symbol_json(source, tags.last()))
    }
}

/// The outline of a file.
pub fn symbols(document: &Document) -> (r: Json)
    requires
        document.wf(),
    ensures
        exists|tags: Seq<Tag>| #[trigger]
            tree::treed(document.text@, tags) && r@ == JsonView::Array(
                symbols_json(document.text@, tags),
            ),
{
    let tags = tree::tree(document.text.as_str());
    let r = Json::Array(outline(document, tags.as_slice()));
    assert(tree::treed(document.text@, tags@));
    r
}

/// Elements as an outline, in order.
pub fn outline(document: &Document, tags: &[Tag]) -> (r: Vec<Json>)
    requires
        document.wf(),
    ensures
        json::list_view(r@) == symbols_json(document.text@, tags@),
    decreases tags@,
{
    let mut out: Vec<Json> = Vec::new();
    let mut i: usize = 0;
    while i < tags.len()
        invariant
            document.wf(),
            i <= tags@.len(),
            json::list_view(out@) == symbols_json(document.text@, tags@.take(i as int)),
        decreases tags@.len() - i,
    {
        proof {
            assert(tags@.take(i + 1).drop_last() =~= tags@.take(i as int));
            assert(tags@.take(i + 1).last() == tags@[i as int]);
            assert(decreases_to!(tags@ => tags@[i as int]));
        }
        let one = symbol(document, &tags[i]);
        proof {
            json::lemma_list_view_push(out@, one);
        }
        out.push(one);
        i = i + 1;
    }
    assert(tags@.take(i as int) =~= tags@);
    out
}

/// An element and what is inside it, as an outline.
fn symbol(document: &Document, tag: &Tag) -> (r: Json)
    requires
        document.wf(),
    ensures
        r@ == symbol_json(document.text@, *tag),
    decreases *tag,
{
    let (name, kind): (&str, u64) = if tag.name.as_str().is_empty() {
        ("<>", OBJECT)
    } else {
        (tag.name.as_str(), CLASS)
    };
    let end: usize = if tag.open_name.1 > tag.open_name.0 || tag.open_name.0 == usize::MAX {
        tag.open_name.1
    } else {
        tag.open_name.0 + 1
    };
    let children = outline(document, tag.children.as_slice());
    let value = Json::object().with("name", Json::text(name)).with("kind", Json::number(kind)).with(
        "range",
        document.range_at(tag.start, tag.end),
    ).with(
        // Selecting the element highlights its opening name, not the whole
        // subtree, which is what makes the outline usable to jump with.
        "selectionRange",
        document.range_at(tag.open_name.0, end),
    ).with("children", Json::Array(children));
    match &tag.label {
        Some(label) => value.with("detail", Json::text(label.as_str())),
        None => value,
    }
}

/// Whether a symbol is the one for an element: it covers the whole of it, selects
/// its opening name, is called what it is, and has its descendants inside it.
pub open spec fn outlines(source: Seq<char>, tag: Tag, symbol: JsonView) -> bool {
    match (
        symbol.get("range"@),
        symbol.get("selectionRange"@),
        symbol.get_str("name"@),
        symbol.get_array("children"@),
    ) {
        (Some(range), Some(selection), Some(name), Some(children)) => {
            &&& document::byte_range_of(source, range) == Some((tag.start as int, tag.end as int))
            &&& tag.name@.len() > 0 ==> name == tag.name@ && document::reads(
                source,
                selection,
                tag.name@,
            )
            &&& tag.name@.len() == 0 ==> name == "<>"@
            &&& symbol.get_u64("kind"@) == Some(
                if tag.name@.len() == 0 {
                    19u64
                } else {
                    5u64
                },
            )
            &&& children.len() == tag.children@.len()
            &&& forall|i: int|
                0 <= i < children.len() ==> #[trigger] children[i] == symbol_json(
                    source,
                    tag.children@[i],
                )
            &&& symbol.get_str("detail"@) == text::view_of(tag.label)
        },
        _ => false,
    }
}

/// Every element, however deep, has a symbol that outlines it: its range, read
/// back, is all of the element, and what is selected, read back, is its opening
/// name. The symbols of a list of elements come in the same order, one for each.
///
/// The places have to be ones that a position can say.
#[verifier::rlimit(40)]
pub proof fn law_a_symbol_outlines_its_element(source: Seq<char>, tags: Seq<Tag>, i: int)
    requires
        tree::treed(source, tags),
        0 <= i < tree::flat(tags).len(),
        text::bytes(source).len() <= u32::MAX,
        line_index::addressable(source, tree::flat(tags)[i].start as int),
        line_index::addressable(source, tree::flat(tags)[i].end as int),
        tree::flat(tags)[i].start <= tree::flat(tags)[i].end,
        document::kept_off_breaks(tree::flat(tags)[i].name@),
    ensures
        outlines(source, tree::flat(tags)[i], symbol_json(source, tree::flat(tags)[i])),
{
    let tag = tree::flat(tags)[i];
    document::law_ranges_read_back(source, tag.start as int, tag.end as int);
    tree::law_names_are_where_they_say(source, tags, i);
    if tag.name@.len() > 0 {
        let (start, end) = (tag.open_name.0 as int, tag.open_name.1 as int);
        document::lemma_sayable(source, start, end);
        document::law_ranges_read_back(source, start, end);
        text::lemma_cut(source, start, end);
        vstd::utf8::encode_utf8_first_scalar(tag.name@);
        assert(start < end);
    }
    law_symbols_come_in_order(source, tag.children@);
    json::lemma_gets();
    reveal_strlit("name");
    reveal_strlit("kind");
    reveal_strlit("range");
    reveal_strlit("selectionRange");
    reveal_strlit("children");
    reveal_strlit("detail");
    assert("name"@.len() == 4 && "kind"@.len() == 4 && "range"@.len() == 5);
    assert("selectionRange"@.len() == 14 && "children"@.len() == 8 && "detail"@.len() == 6);
    assert("name"@[0] == 'n' && "kind"@[0] == 'k');
}

/// There is a symbol for each of some elements, in the same order.
pub proof fn law_symbols_come_in_order(source: Seq<char>, tags: Seq<Tag>)
    ensures
        symbols_json(source, tags).len() == tags.len(),
        forall|i: int|
            0 <= i < tags.len() ==> #[trigger] symbols_json(source, tags)[i] == symbol_json(
                source,
                tags[i],
            ),
    decreases tags.len(),
{
    if tags.len() > 0 {
        let rest = tags.drop_last();
        law_symbols_come_in_order(source, rest);
        assert forall|i: int| 0 <= i < tags.len() implies #[trigger] symbols_json(source, tags)[i]
            == symbol_json(source, tags[i]) by {
            if i < rest.len() {
                assert(rest[i] == tags[i]);
                assert(symbols_json(source, tags)[i] == symbols_json(source, rest)[i]);
            }
        }
    }
}

} // verus!
