//! What the compiler cannot be handed.
//!
//! It reads the markup of a file, and inside every `{…}` of it again, and what
//! an element holds as a child it hands to the Luau parser once compiled. So
//! what either of the two cannot take has to be looked for as deep.

use vstd::prelude::*;
use vstd::string::*;

use crate::luau::{self, find_misfit};
use crate::regions::{self, braced, ending, regions, Ending, Region};
use crate::resolving::{self, blank};
use crate::syntax::{self, Extent, Item, Markup, Prop, PropValue};
use crate::text::{self, is_white, length, slice};

verus! {

/// Something that the compiler cannot be handed, and where it stands.
#[derive(Debug, Clone, Copy, PartialEq, Eq, Structural)]
pub enum Snag {
    /// A comment whose `-->` overlaps its `<!--`.
    Comment(usize),
    /// A character that would come to stand where the Luau parser cannot take
    /// it, or something that does not end before one.
    Character(usize),
}

/// A snag in a part of a text, where it stands in the text.
pub open spec fn moved(snag: Option<Snag>, by: int) -> Option<Snag> {
    match snag {
        Some(Snag::Comment(at)) => Some(Snag::Comment((by + at) as usize)),
        Some(Snag::Character(at)) => Some(Snag::Character((by + at) as usize)),
        None => None,
    }
}

/// Whether a carriage return that ends no line stands at an offset.
pub open spec fn lone_return(b: Seq<u8>, i: int) -> bool {
    b[i] == 13 && !luau::byte_at(b, i + 1, 10)
}

/// Whether nothing in a text could be foreign to Luau wherever it came to stand:
/// no character is, and none would be written with a backslash.
pub open spec fn calm(b: Seq<u8>) -> bool {
    forall|i: int|
        #![trigger b[i]]
        0 <= i < b.len() ==> !luau::foreign(b, i) && b[i] != 34 && b[i] != 96 && !lone_return(b, i)
}

fn is_calm(text: &str) -> (r: bool)
    ensures
        r == calm(text::bytes(text@)),
{
    let b = text.as_bytes();
    let mut i: usize = 0;
    while i < b.len()
        invariant
            b@ == text::bytes(text@),
            i <= b@.len(),
            forall|j: int|
                #![trigger b@[j]]
                0 <= j < i ==> !luau::foreign(b@, j) && b@[j] != 34 && b@[j] != 96 && !lone_return(
                    b@,
                    j,
                ),
        decreases b@.len() - i,
    {
        let c: u8 = b[i];
        if luau::is_foreign(b, i) || c == 34 || c == 96 || c == 13 && !luau::is_byte_at(b, i + 1, 10) {
            assert(b@[i as int] == c);
            return false;
        }
        i = i + 1;
    }
    true
}

/// Whether the lines of a text are told apart as Luau tells them: no carriage
/// return stands alone, and no form feed or vertical tab is there.
pub open spec fn lined(b: Seq<u8>) -> bool {
    forall|i: int|
        #![trigger b[i]]
        0 <= i < b.len() ==> b[i] != 11 && b[i] != 12 && !lone_return(b, i)
}

/// Whether the lines of a text, from a character on, are indented with spaces
/// and tabs alone.
pub open spec fn indented(chars: Seq<char>, leading: bool) -> bool
    decreases chars.len(),
{
    if chars.len() == 0 {
        true
    } else {
        let c = chars[0];
        let rest = chars.drop_first();
        if c == '\n' {
            indented(rest, true)
        } else if leading && text::white(c) {
            (c == ' ' || c == '\t' || c == '\r') && indented(rest, true)
        } else {
            indented(rest, false)
        }
    }
}

/// Whether what is written of the lines of a text will read as it stands.
pub open spec fn tidy(text: Seq<char>) -> bool {
    lined(text::bytes(text)) && indented(text, true)
}

fn is_tidy(text: &str) -> (r: bool)
    ensures
        r == tidy(text@),
{
    let b = text.as_bytes();
    let mut i: usize = 0;
    while i < b.len()
        invariant
            b@ == text::bytes(text@),
            i <= b@.len(),
            forall|j: int|
                #![trigger b@[j]]
                0 <= j < i ==> b@[j] != 11 && b@[j] != 12 && !lone_return(b@, j),
        decreases b@.len() - i,
    {
        let c: u8 = b[i];
        if c == 11 || c == 12 || c == 13 && !luau::is_byte_at(b, i + 1, 10) {
            assert(b@[i as int] == c);
            return false;
        }
        i = i + 1;
    }
    let mut leading: bool = true;
    assert(text@.skip(0) =~= text@);
    for c in it: text.chars()
        invariant
            it.seq() == text@,
            indented(text@, true) == indented(text@.skip(it.index()), leading),
            lined(text::bytes(text@)),
    {
        assert(text@[it.index()] == c);
        assert(text@.skip(it.index()).drop_first() =~= text@.skip(it.index() + 1));
        if c == '\n' {
            leading = true;
        } else if leading && is_white(c) {
            if !(c == ' ' || c == '\t' || c == '\r') {
                return false;
            }
        } else {
            leading = false;
        }
    }
    true
}

/// What is in the way in an expression: in one whose text the Luau parser gets,
/// it has to be told apart from all around it in just the way Luau does.
pub open spec fn expression_snag(text: Seq<char>, child: bool, strict: bool) -> Option<int> {
    if strict {
        luau::misfit_of(resolving::blanked_file(text), true)
    } else if !child || calm(text::bytes(text)) {
        None
    } else if !tidy(text) {
        Some(0)
    } else {
        match luau::misfit_of(resolving::blanked_file(text) + "\n"@, true) {
            Some(at) => Some(if at <= text::bytes(text).len() {
                at
            } else {
                text::bytes(text).len() as int
            }),
            None => None,
        }
    }
}

fn find_expression_snag(text: &str, child: bool, strict: bool) -> (r: Option<usize>)
    ensures
        match (r, expression_snag(text@, child, strict)) {
            (Some(a), Some(b)) => a == b && a <= text::bytes(text@).len(),
            (None, None) => true,
            _ => false,
        },
{
    if strict {
        return find_misfit(blank(text).as_str(), true);
    }
    if !child || is_calm(text) {
        return None;
    }
    if !is_tidy(text) {
        return Some(0);
    }
    let mut code = blank(text);
    code.append("\n");
    match find_misfit(code.as_str(), true) {
        Some(at) => {
            let whole: usize = length(text);
            Some(if at <= whole {
                at
            } else {
                whole
            })
        },
        None => None,
    }
}

/// The first snag in a text. It is strict inside what the Luau parser gets and
/// does not take wherever it stands.
pub open spec fn snag_in(source: Seq<char>, strict: bool) -> Option<Snag>
    decreases text::bytes(source).len(), 3int, source,
{
    match regions::ending_of(source) {
        Ending::Stuck(at) => Some(Snag::Comment(at)),
        _ => region_snag(source, regions::regions_of(source), strict),
    }
}

/// The first snag in some regions of a text.
pub open spec fn region_snag(source: Seq<char>, found: Seq<Region>, strict: bool) -> Option<Snag>
    decreases text::bytes(source).len(), 2int, found,
{
    if found.len() == 0 {
        None
    } else {
        match node_snag(source, found[0].node, strict) {
            Some(snag) => Some(snag),
            None => region_snag(source, found.drop_first(), strict),
        }
    }
}

/// The first snag in a node.
pub open spec fn node_snag(source: Seq<char>, node: Markup, strict: bool) -> Option<Snag>
    decreases text::bytes(source).len(), 1int, node,
{
    match node {
        Markup::Element(element) => match prop_snag(source, element.attributes@, strict) {
            Some(snag) => Some(snag),
            None => item_snag(source, element.children@, strict),
        },
        Markup::Fragment(fragment) => item_snag(source, fragment.children@, strict),
    }
}

/// The first snag in some attributes.
pub open spec fn prop_snag(source: Seq<char>, props: Seq<Prop>, strict: bool) -> Option<Snag>
    decreases text::bytes(source).len(), 1int, props,
{
    if props.len() == 0 {
        None
    } else {
        let first = match props[0] {
            Prop::Named { value: PropValue::Expression(_), span, .. } => hole_snag(
                source,
                span.start as int,
                false,
                strict,
            ),
            Prop::Spread { span, .. } => hole_snag(source, span.start as int, false, strict),
            _ => None,
        };
        match first {
            Some(snag) => Some(snag),
            None => prop_snag(source, props.drop_first(), strict),
        }
    }
}

/// The first snag in some children.
pub open spec fn item_snag(source: Seq<char>, items: Seq<Item>, strict: bool) -> Option<Snag>
    decreases text::bytes(source).len(), 1int, items,
{
    if items.len() == 0 {
        None
    } else {
        let first = match items[0] {
            Item::Node(node) => node_snag(source, node, strict),
            Item::Expression { span, .. } => hole_snag(source, span.start as int, true, strict),
            _ => None,
        };
        match first {
            Some(snag) => Some(snag),
            None => item_snag(source, items.drop_first(), strict),
        }
    }
}

/// The first snag in the `{…}` at or after an offset.
pub open spec fn hole_snag(source: Seq<char>, from: int, child: bool, strict: bool) -> Option<Snag>
    decreases text::bytes(source).len(), 0int, source,
{
    match regions::braced_of(source, from) {
        Some((start, end)) => {
            let inner = text::cut(source, start, end);
            let deeper = if text::bytes(inner).len() < text::bytes(source).len() {
                moved(snag_in(inner, strict || child && !calm(text::bytes(inner))), start)
            } else {
                None
            };
            match (deeper, expression_snag(inner, child, strict)) {
                (Some(snag), _) => Some(snag),
                (None, Some(at)) => Some(Snag::Character((start + at) as usize)),
                (None, None) => None,
            }
        },
        None => None,
    }
}

/// A snag in a part of a text, where it stands in the text.
fn shift(snag: Option<Snag>, by: usize, room: usize) -> (r: Option<Snag>)
    requires
        snag matches Some(snag) ==> reaches(snag) + by <= room,
    ensures
        r == moved(snag, by as int),
{
    match snag {
        Some(Snag::Comment(at)) => Some(Snag::Comment(by + at)),
        Some(Snag::Character(at)) => Some(Snag::Character(by + at)),
        None => None,
    }
}

/// Where a snag stands.
pub open spec fn reaches(snag: Snag) -> int {
    match snag {
        Snag::Comment(at) => at as int,
        Snag::Character(at) => at as int,
    }
}

/// Finds the first snag in a text.
pub fn find_snag(source: &str, strict: bool) -> (r: Option<Snag>)
    ensures
        r == snag_in(source@, strict),
        r matches Some(snag) ==> reaches(snag) <= text::bytes(source@).len(),
    decreases text::bytes(source@).len(), text::bytes(source@).len() + 1, 0int,
{
    match ending(source) {
        Ending::Stuck(at) => {
            return Some(Snag::Comment(at));
        },
        _ => {},
    }
    let found = regions(source);
    let mut i: usize = 0;
    assert(found@.skip(0) =~= found@);
    while i < found.len()
        invariant
            i <= found@.len(),
            regions::laid_out(source@, found@),
            found@ == regions::regions_of(source@),
            !(regions::ending_of(source@) is Stuck),
            region_snag(source@, found@, strict) == region_snag(
                source@,
                found@.skip(i as int),
                strict,
            ),
        decreases found@.len() - i,
    {
        assert(found@.skip(i as int).drop_first() =~= found@.skip(i + 1));
        assert(found@.skip(i as int)[0] == found@[i as int]);
        match find_node_snag(source, &found[i].node, strict) {
            Some(snag) => {
                return Some(snag);
            },
            None => {},
        }
        i = i + 1;
    }
    None
}

fn find_node_snag(source: &str, node: &Markup, strict: bool) -> (r: Option<Snag>)
    requires
        syntax::placed(source@, *node),
    ensures
        r == node_snag(source@, *node, strict),
        r matches Some(snag) ==> reaches(snag) <= text::bytes(source@).len(),
    decreases text::bytes(source@).len(), text::bytes(source@).len() - node.span().start, 1int,
{
    match node {
        Markup::Element(element) => {
            match find_prop_snag(source, &element.attributes, element.span, strict) {
                Some(snag) => Some(snag),
                None => find_item_snag(source, &element.children, element.span, strict),
            }
        },
        Markup::Fragment(fragment) => find_item_snag(
            source,
            &fragment.children,
            fragment.span,
            strict,
        ),
    }
}

fn find_prop_snag(source: &str, props: &Vec<Prop>, outer: Extent, strict: bool) -> (r: Option<Snag>)
    requires
        outer.start < outer.end <= text::bytes(source@).len(),
        forall|i: int|
            0 <= i < props@.len() ==> syntax::placed_prop(source@, #[trigger] props@[i], outer),
    ensures
        r == prop_snag(source@, props@, strict),
        r matches Some(snag) ==> reaches(snag) <= text::bytes(source@).len(),
    decreases text::bytes(source@).len(), text::bytes(source@).len() - outer.start, 0int,
{
    let mut i: usize = 0;
    assert(props@.skip(0) =~= props@);
    while i < props.len()
        invariant
            i <= props@.len(),
            outer.start < outer.end <= text::bytes(source@).len(),
            forall|i: int|
                0 <= i < props@.len() ==> syntax::placed_prop(source@, #[trigger] props@[i], outer),
            prop_snag(source@, props@, strict) == prop_snag(
                source@,
                props@.skip(i as int),
                strict,
            ),
        decreases props@.len() - i,
    {
        assert(props@.skip(i as int).drop_first() =~= props@.skip(i + 1));
        assert(props@.skip(i as int)[0] == props@[i as int]);
        let prop = &props[i];
        let first = match prop {
            Prop::Named { value, span, .. } => match value {
                PropValue::Expression(_) => find_hole_snag(source, span.start, false, strict),
                _ => None,
            },
            Prop::Spread { span, .. } => find_hole_snag(source, span.start, false, strict),
        };
        if first.is_some() {
            return first;
        }
        i = i + 1;
    }
    None
}

fn find_item_snag(source: &str, items: &Vec<Item>, outer: Extent, strict: bool) -> (r: Option<Snag>)
    requires
        outer.start < outer.end <= text::bytes(source@).len(),
        forall|i: int|
            0 <= i < items@.len() ==> syntax::placed_child(source@, #[trigger] items@[i], outer),
    ensures
        r == item_snag(source@, items@, strict),
        r matches Some(snag) ==> reaches(snag) <= text::bytes(source@).len(),
    decreases text::bytes(source@).len(), text::bytes(source@).len() - outer.start, 0int,
{
    let mut i: usize = 0;
    assert(items@.skip(0) =~= items@);
    while i < items.len()
        invariant
            i <= items@.len(),
            outer.start < outer.end <= text::bytes(source@).len(),
            forall|i: int|
                0 <= i < items@.len() ==> syntax::placed_child(
                    source@,
                    #[trigger] items@[i],
                    outer,
                ),
            item_snag(source@, items@, strict) == item_snag(
                source@,
                items@.skip(i as int),
                strict,
            ),
        decreases items@.len() - i,
    {
        assert(items@.skip(i as int).drop_first() =~= items@.skip(i + 1));
        assert(items@.skip(i as int)[0] == items@[i as int]);
        let item = &items[i];
        let first = match item {
            Item::Node(node) => find_node_snag(source, node, strict),
            Item::Expression { span, .. } => find_hole_snag(source, span.start, true, strict),
            _ => None,
        };
        if first.is_some() {
            return first;
        }
        i = i + 1;
    }
    None
}

fn find_hole_snag(source: &str, from: usize, child: bool, strict: bool) -> (r: Option<Snag>)
    requires
        from <= text::bytes(source@).len(),
    ensures
        r == hole_snag(source@, from as int, child, strict),
        r matches Some(snag) ==> reaches(snag) <= text::bytes(source@).len(),
    decreases text::bytes(source@).len(), text::bytes(source@).len() - from, 2int,
{
    match braced(source, from) {
        Some((start, end)) => {
            let inner = slice(source, start, end);
            let deeper = shift(
                find_snag(inner, strict || child && !is_calm(inner)),
                start,
                end,
            );
            if deeper.is_some() {
                return deeper;
            }
            match find_expression_snag(inner, child, strict) {
                Some(at) => Some(Snag::Character(start + at)),
                None => None,
            }
        },
        None => None,
    }
}

} // verus!
