//! The LuauX syntax tree.
//!
//! Expressions are held by where they stand in the file, never by what they
//! mean. A `{…}` is first read as a bare span; [`crate::holes`] then fills in
//! what is inside it, and [`crate::resolving`] what each name stands for.

use vstd::prelude::*;
use vstd::string::*;

use crate::text::{self, find_from, length, same, slice};

verus! {

#[derive(Debug, Clone, Copy, PartialEq, Eq, Structural)]
pub struct Extent {
    pub start: usize,
    pub end: usize,
}

#[derive(Debug)]
pub enum Markup {
    Element(ElementNode),
    Fragment(FragmentNode),
}

#[derive(Debug)]
pub struct ElementNode {
    pub name: TagName,
    /// What the name stands for, once that has been asked.
    pub meaning: Meaning,
    pub attributes: Vec<Prop>,
    pub children: Vec<Item>,
    pub span: Extent,
}

#[derive(Debug)]
pub struct FragmentNode {
    pub children: Vec<Item>,
    pub span: Extent,
}

#[derive(Debug)]
pub enum TagName {
    /// `<Frame>` — an intrinsic or a component.
    Simple(String),
    /// `<Foo.Bar>` — always a component.
    Member(Vec<String>),
}

/// What an element's name stands for.
#[derive(Debug)]
pub enum Meaning {
    /// A Roblox class, by its canonical name.
    Intrinsic(String),
    /// A value that the file binds.
    Component,
    /// Neither.
    Unresolved,
}

#[derive(Debug)]
pub enum Prop {
    Named {
        name: String,
        /// The property that the name stands for, once that has been asked;
        /// none, if the compiler refuses it.
        key: Option<String>,
        value: PropValue,
        span: Extent,
    },
    /// `{props}` in attribute position.
    Spread { hole: Option<Hole>, span: Extent },
}

#[derive(Debug)]
pub enum PropValue {
    /// `Size={expr}`.
    Expression(Option<Hole>),
    /// `Name="literal"` — the raw literal *including* its quotes.
    StringLiteral(String),
    /// Shorthand `Visible`, meaning `true`.
    Boolean,
}

#[derive(Debug)]
pub enum Item {
    Node(Markup),
    /// `{expr}`.
    Expression { hole: Option<Hole>, span: Extent },
    /// Literal text.
    Text { span: Extent },
    Comment { span: Extent },
}

/// The trimmed expression inside a `{…}`, and the LuauX nested in it.
#[derive(Debug)]
pub struct Hole {
    pub start: usize,
    pub end: usize,
    pub nested: Vec<Nested>,
}

/// A LuauX region inside an expression, in file coordinates.
#[derive(Debug)]
pub struct Nested {
    pub start: usize,
    pub end: usize,
    /// The region as it reads where it stands in the file.
    pub node: Option<Markup>,
}

/// Dotted segments, as they were written.
pub open spec fn dotted(parts: Seq<String>) -> Seq<char>
    decreases parts.len(),
{
    if parts.len() == 0 {
        Seq::empty()
    } else if parts.len() == 1 {
        parts[0]@
    } else {
        dotted(parts.drop_last()) + "."@ + parts.last()@
    }
}

impl TagName {
    pub open spec fn written(self) -> Seq<char> {
        match self {
            TagName::Simple(name) => name@,
            TagName::Member(parts) => dotted(parts@),
        }
    }

    pub fn as_written(&self) -> (r: String)
        ensures
            r@ == self.written(),
    {
        match self {
            TagName::Simple(name) => name.clone(),
            TagName::Member(parts) => {
                let mut joined = String::new();
                let mut i: usize = 0;
                while i < parts.len()
                    invariant
                        i <= parts.len(),
                        joined@ == dotted(parts@.take(i as int)),
                    decreases parts.len() - i,
                {
                    assert(parts@.take(i + 1).drop_last() =~= parts@.take(i as int));
                    if i > 0 {
                        joined.append(".");
                    }
                    joined.append(parts[i].as_str());
                    assert(joined@ =~= dotted(parts@.take(i + 1)));
                    i = i + 1;
                }
                assert(parts@.take(parts@.len() as int) =~= parts@);
                joined
            },
        }
    }
}

impl Markup {
    pub open spec fn span(self) -> Extent {
        match self {
            Markup::Element(element) => element.span,
            Markup::Fragment(fragment) => fragment.span,
        }
    }
}

impl Prop {
    pub open spec fn span(self) -> Extent {
        match self {
            Prop::Named { span, .. } => span,
            Prop::Spread { span, .. } => span,
        }
    }
}

impl Item {
    pub open spec fn span(self) -> Extent {
        match self {
            Item::Node(node) => node.span(),
            Item::Expression { span, .. } => span,
            Item::Text { span } => span,
            Item::Comment { span } => span,
        }
    }
}

/// ASCII whitespace: space, tab, line feed, form feed and carriage return.
pub open spec fn ascii_blank(b: u8) -> bool {
    b == 32 || b == 9 || b == 10 || b == 12 || b == 13
}

/// The first offset at or after `from` that holds no ASCII whitespace.
pub open spec fn past_blanks(b: Seq<u8>, from: int) -> int
    decreases b.len() - from,
{
    if 0 <= from < b.len() && ascii_blank(b[from]) {
        past_blanks(b, from + 1)
    } else {
        from
    }
}

/// Whether `inner` lies within `outer`, past its first byte.
pub open spec fn inside(inner: Extent, outer: Extent) -> bool {
    outer.start < inner.start < inner.end <= outer.end
}

/// Whether a tree fits the source it was read from: every part lies within the
/// one around it and after its opening `<`, and every element's name stands
/// where its tag opens, past any whitespace.
pub open spec fn placed(source: Seq<char>, node: Markup) -> bool
    decreases node,
{
    &&& node.span().start < node.span().end <= text::bytes(source).len()
    &&& text::bytes(source)[node.span().start as int] == 60
    &&& match node {
        Markup::Element(element) => {
            &&& ({
                let at = past_blanks(text::bytes(source), element.span.start + 1);
                let end = at + text::bytes(element.name.written()).len();
                &&& end <= element.span.end
                &&& text::bytes(source).subrange(at, end) == text::bytes(element.name.written())
            })
            &&& forall|i: int|
                0 <= i < element.attributes@.len() ==> placed_prop(
                    source,
                    #[trigger] element.attributes@[i],
                    element.span,
                )
            &&& forall|i: int|
                0 <= i < element.children@.len() ==> placed_child(
                    source,
                    #[trigger] element.children@[i],
                    element.span,
                )
        },
        Markup::Fragment(fragment) => forall|i: int|
            0 <= i < fragment.children@.len() ==> placed_child(
                source,
                #[trigger] fragment.children@[i],
                fragment.span,
            ),
    }
}

pub open spec fn placed_child(source: Seq<char>, child: Item, outer: Extent) -> bool
    decreases child,
{
    &&& inside(child.span(), outer)
    &&& match child {
        Item::Node(node) => placed(source, node),
        Item::Expression { hole, .. } => placed_hole(source, hole),
        _ => true,
    }
}

pub open spec fn placed_prop(source: Seq<char>, prop: Prop, outer: Extent) -> bool
    decreases prop,
{
    &&& inside(prop.span(), outer)
    &&& match prop {
        Prop::Named { value: PropValue::Expression(hole), .. } => placed_hole(source, hole),
        Prop::Spread { hole, .. } => placed_hole(source, hole),
        _ => true,
    }
}

/// Whether the LuauX inside a `{…}` that has been looked into fits too.
pub open spec fn placed_hole(source: Seq<char>, hole: Option<Hole>) -> bool
    decreases hole,
{
    match hole {
        Some(hole) => {
            &&& hole.start < hole.end <= text::bytes(source).len()
            &&& forall|i: int|
                0 <= i < hole.nested@.len() ==> placed_nested(source, #[trigger] hole.nested@[i])
        },
        None => true,
    }
}

pub open spec fn placed_nested(source: Seq<char>, nested: Nested) -> bool
    decreases nested,
{
    match nested.node {
        Some(node) => placed(source, node),
        None => true,
    }
}

/// Why a text could not be parsed.
#[derive(Debug)]
pub struct Fault {
    pub message: String,
    pub offset: usize,
}

/// A fault, as plain values.
pub struct FaultView {
    pub message: Seq<char>,
    pub offset: usize,
}

impl View for Fault {
    type V = FaultView;

    open spec fn view(&self) -> FaultView {
        FaultView { message: self.message@, offset: self.offset }
    }
}

/// What the LuauX parser makes of the text that begins at an offset: the tree
/// and where it ends, or a fault.
pub uninterp spec fn parsed(source: Seq<char>, start: int) -> Result<(Markup, usize), FaultView>;

/// [`luaux::markup::parse_node`], which parses one LuauX node and returns it
/// with the offset just past it, or an error.
///
/// The result depends on the text and the offset alone, and is named rather
/// than spelled out. Of a tree that comes back, this claims that it begins at
/// `start` and ends at the offset returned, that it is no shorter than `<a/>`,
/// and that every part of it lies where [`placed`] says.
///
/// The parser slices the text at `start`, so that has to be a boundary. Where a
/// child may begin with `<!--`, it looks for a `-->` from there on and then
/// slices between the two, so they may not overlap there.
#[verifier::external_body]
fn parse_node(source: &str, start: usize) -> (r: Result<(Markup, usize), Fault>)
    requires
        text::boundary(source@, start as int),
        stuck_of(source@, start as int) is None,
    ensures
        match (r, parsed(source@, start as int)) {
            (Ok(a), Ok(b)) => a == b,
            (Err(a), Err(b)) => a@ == b,
            _ => false,
        },
        r matches Ok((node, end)) ==> {
            &&& node.span() == (Extent { start, end })
            &&& start + 4 <= end
            &&& placed(source@, node)
            &&& text::boundary(source@, end as int)
        },
{
    match luaux::markup::parse_node(source, start) {
        Ok((node, end)) => Ok((node_of(node), end)),
        Err(error) => Err(Fault { message: error.message, offset: error.offset }),
    }
}

/// Whether a comment stands at an offset whose `-->` overlaps its `<!--`.
pub open spec fn clipped(source: Seq<char>, at: int) -> bool {
    ||| text::occurs(text::bytes(source), text::bytes("<!-->"@), at)
    ||| text::occurs(text::bytes(source), text::bytes("<!--->"@), at)
}

/// Whether a text ends where a child may begin, read from an offset on.
pub open spec fn unclosed(source: Seq<char>, start: int) -> bool {
    parsed(source, start) matches Err(fault) && fault.message == "unclosed element"@ && fault.offset
        == text::bytes(source).len()
}

/// Whether reading from one offset comes to such a comment at another: what is
/// before the comment ends where a child may begin.
pub open spec fn stuck_at(source: Seq<char>, start: int, at: int) -> bool {
    clipped(source, at) && unclosed(text::cut(source, 0, at), start)
}

/// The first place from an offset on where reading comes to such a comment.
pub open spec fn stuck_from(source: Seq<char>, start: int, at: int) -> Option<int>
    decreases text::bytes(source).len() - at,
{
    if at < 0 || at >= text::bytes(source).len() {
        None
    } else if stuck_at(source, start, at) {
        Some(at)
    } else {
        stuck_from(source, start, at + 1)
    }
}

/// Where reading from an offset comes to such a comment, if it does.
pub open spec fn stuck_of(source: Seq<char>, start: int) -> Option<int> {
    stuck_from(source, start, start)
}

/// What [`stuck_from`] finds: a place, with none before it.
proof fn lemma_stuck(source: Seq<char>, start: int, at: int)
    requires
        0 <= at,
    ensures
        match stuck_from(source, start, at) {
            Some(found) => at <= found < text::bytes(source).len() && stuck_at(
                source,
                start,
                found,
            ) && forall|i: int| at <= i < found ==> !stuck_at(source, start, i),
            None => forall|i: int|
                at <= i < text::bytes(source).len() ==> !stuck_at(source, start, i),
        },
    decreases text::bytes(source).len() - at,
{
    if at < text::bytes(source).len() && !stuck_at(source, start, at) {
        lemma_stuck(source, start, at + 1);
    }
}

proof fn lemma_clip_spellings()
    ensures
        "<!-->"@.len() > 0,
        "<!--->"@.len() > 0,
        text::bytes("<!-->"@).len() > 0,
        text::bytes("<!--->"@).len() > 0,
{
    reveal_strlit("<!-->");
    reveal_strlit("<!--->");
    vstd::utf8::is_ascii_chars_encode_utf8("<!-->"@);
    vstd::utf8::is_ascii_chars_encode_utf8("<!--->"@);
}

/// What comes before such a comment can be read, if nothing in it is in the way.
proof fn lemma_before_clip(source: Seq<char>, start: int, at: int)
    requires
        text::boundary(source, start),
        start <= at,
        clipped(source, at),
        forall|i: int| start <= i < at ==> !stuck_at(source, start, i),
    ensures
        at < text::bytes(source).len(),
        text::cuttable(source, 0, at),
        text::boundary(text::cut(source, 0, at), start),
        stuck_of(text::cut(source, 0, at), start) is None,
{
    let b = text::bytes(source);
    let head = text::cut(source, 0, at);
    lemma_clip_spellings();
    text::lemma_boundary_ends(source);
    text::lemma_boundary_range(source, start);
    if text::occurs(b, text::bytes("<!-->"@), at) {
        text::lemma_occurs_boundaries(source, "<!-->"@, at);
    } else {
        text::lemma_occurs_boundaries(source, "<!--->"@, at);
    }
    text::lemma_cut(source, 0, at);
    text::lemma_boundary_byte(source, start);
    text::lemma_boundary_byte(head, start);
    lemma_stuck(head, start, start);
    if let Some(i) = stuck_of(head, start) {
        assert forall|needle: Seq<u8>| #[trigger]
            text::occurs(text::bytes(head), needle, i) implies text::occurs(b, needle, i) by {
            assert(b.subrange(i, i + needle.len()) =~= text::bytes(head).subrange(
                i,
                i + needle.len(),
            ));
        }
        assert(clipped(source, i));
        assert(text::bytes(head).subrange(0, i) =~= b.subrange(0, i));
        assert(text::cut(head, 0, i) == text::cut(source, 0, i));
        assert(stuck_at(source, start, i));
    }
}

/// Where the next such comment stands, whether or not reading comes to it.
fn find_clipped(source: &str, from: usize) -> (r: Option<usize>)
    ensures
        match r {
            Some(at) => from <= at && clipped(source@, at as int) && forall|i: int|
                from <= i < at ==> !clipped(source@, i),
            None => forall|i: int| from <= i ==> !clipped(source@, i),
        },
{
    proof {
        text::lemma_found(text::bytes(source@), text::bytes("<!-->"@), from as int);
        text::lemma_found(text::bytes(source@), text::bytes("<!--->"@), from as int);
    }
    match (find_from(source, "<!-->", from), find_from(source, "<!--->", from)) {
        (Some(a), Some(b)) => Some(if a <= b {
            a
        } else {
            b
        }),
        (Some(a), None) => Some(a),
        (None, b) => b,
    }
}

/// Finds where reading from an offset comes to a comment whose `-->` overlaps
/// its `<!--`.
pub fn find_stuck(source: &str, start: usize) -> (r: Option<usize>)
    requires
        text::boundary(source@, start as int),
    ensures
        match (r, stuck_of(source@, start as int)) {
            (Some(a), Some(b)) => a == b && a < text::bytes(source@).len(),
            (None, None) => true,
            _ => false,
        },
{
    let n: usize = length(source);
    let mut from: usize = start;
    proof {
        text::lemma_boundary_range(source@, start as int);
        lemma_stuck(source@, start as int, start as int);
    }
    while from < n
        invariant
            n == text::bytes(source@).len(),
            start <= from <= n,
            text::boundary(source@, start as int),
            forall|i: int| start <= i < from ==> !stuck_at(source@, start as int, i),
            match stuck_of(source@, start as int) {
                Some(found) => start <= found < n && stuck_at(source@, start as int, found)
                    && forall|i: int| start <= i < found ==> !stuck_at(source@, start as int, i),
                None => forall|i: int| start <= i < n ==> !stuck_at(source@, start as int, i),
            },
        decreases n - from,
    {
        let at: usize = match find_clipped(source, from) {
            Some(at) => at,
            None => {
                return None;
            },
        };
        proof {
            lemma_before_clip(source@, start as int, at as int);
            text::lemma_cut(source@, 0, at as int);
        }
        let open = match parse_node(slice(source, 0, at), start) {
            Ok(_) => false,
            Err(fault) => same(fault.message.as_str(), "unclosed element") && fault.offset == at,
        };
        if open {
            proof {
                assert(text::bytes(text::cut(source@, 0, at as int)).len() == at);
                assert(stuck_at(source@, start as int, at as int));
            }
            return Some(at);
        }
        from = at + 1;
    }
    None
}

/// What can be read of the markup that begins at an offset: nothing, where that
/// comes to a comment whose `-->` overlaps its `<!--`.
pub open spec fn read(source: Seq<char>, start: int) -> Option<(Markup, usize)> {
    if stuck_of(source, start) is Some {
        None
    } else {
        match parsed(source, start) {
            Ok(parsed) => Some(parsed),
            Err(_) => None,
        }
    }
}

/// Reads one node, and returns it with the offset just past it.
pub fn read_node(source: &str, start: usize) -> (r: Option<(Markup, usize)>)
    requires
        text::boundary(source@, start as int),
    ensures
        r == read(source@, start as int),
        r matches Some((node, end)) ==> {
            &&& node.span() == (Extent { start, end })
            &&& start + 4 <= end
            &&& placed(source@, node)
            &&& text::boundary(source@, end as int)
        },
{
    if find_stuck(source, start).is_some() {
        return None;
    }
    match parse_node(source, start) {
        Ok(parsed) => Some(parsed),
        Err(_) => None,
    }
}

#[verifier::external_type_specification]
#[verifier::external_body]
pub struct ExNode(luaux::markup::Node);

#[verifier::external_type_specification]
#[verifier::external_body]
pub struct ExElementName(luaux::markup::ElementName);

#[verifier::external_type_specification]
#[verifier::external_body]
pub struct ExAttribute(luaux::markup::Attribute);

#[verifier::external_type_specification]
#[verifier::external_body]
pub struct ExChild(luaux::markup::Child);

#[verifier::external_type_specification]
#[verifier::external_body]
pub struct ExSpan(luaux::markup::Span);

/// A parsed [`luaux::markup::Node`] as a node of this library, part for part.
#[verifier::external_body]
fn node_of(node: luaux::markup::Node) -> Markup {
    match node {
        luaux::markup::Node::Element(element) => Markup::Element(ElementNode {
            name: name_of(element.name),
            meaning: Meaning::Unresolved,
            attributes: element.attributes.into_iter().map(attribute_of).collect(),
            children: element.children.into_iter().map(child_of).collect(),
            span: span_of(element.span),
        }),
        luaux::markup::Node::Fragment(fragment) => Markup::Fragment(FragmentNode {
            children: fragment.children.into_iter().map(child_of).collect(),
            span: span_of(fragment.span),
        }),
    }
}

/// A parsed [`luaux::markup::ElementName`], variant for variant.
#[verifier::external_body]
fn name_of(name: luaux::markup::ElementName) -> TagName {
    match name {
        luaux::markup::ElementName::Simple(name) => TagName::Simple(name),
        luaux::markup::ElementName::Member(parts) => TagName::Member(parts),
    }
}

/// A parsed [`luaux::markup::Attribute`], variant for variant.
#[verifier::external_body]
fn attribute_of(attribute: luaux::markup::Attribute) -> Prop {
    match attribute {
        luaux::markup::Attribute::Spread { span, .. } => Prop::Spread { hole: None, span: span_of(span) },
        luaux::markup::Attribute::Named { name, value, span } => Prop::Named {
            name,
            key: None,
            value: match value {
                luaux::markup::AttributeValue::Expression(_) => PropValue::Expression(None),
                luaux::markup::AttributeValue::StringLiteral(s) => PropValue::StringLiteral(s),
                luaux::markup::AttributeValue::Boolean => PropValue::Boolean,
            },
            span: span_of(span),
        },
    }
}

/// A parsed [`luaux::markup::Child`], variant for variant.
#[verifier::external_body]
fn child_of(child: luaux::markup::Child) -> Item {
    match child {
        luaux::markup::Child::Node(node) => Item::Node(node_of(node)),
        luaux::markup::Child::Expression { span, .. } => Item::Expression {
            hole: None,
            span: span_of(span),
        },
        luaux::markup::Child::Text { span, .. } => Item::Text { span: span_of(span) },
        luaux::markup::Child::Comment { span, .. } => Item::Comment { span: span_of(span) },
    }
}

/// A [`luaux::markup::Span`], field for field.
#[verifier::external_body]
fn span_of(span: luaux::markup::Span) -> Extent {
    Extent { start: span.start, end: span.end }
}

} // verus!
