//! Building a [`SourceMap`] from a `.luaux` source and the `.luau` the compiler
//! produced from it.
//!
//! The compiler does not hand out a map, so this recovers one. Two properties
//! make that possible without guessing:
//!
//! 1. **Lines are preserved**, so region *N* of the source occupies the same
//!    output lines, which pins every region's output range without searching.
//! 2. **Expressions are captured verbatim**, so each one appears byte for byte in
//!    the output, immediately after generated text whose exact shape is known —
//!    `Size = `, `Text = `, `__luaux_read(`.
//!
//! Everything located here is then checked by [`SourceMap::push`], which refuses
//! any run whose two sides do not actually agree. So a shape this builder does
//! not recognise costs *coverage* — that position simply stops being forwarded —
//! and can never produce a position pointing at the wrong code.

use vstd::prelude::*;
use vstd::string::*;

use luaux::config::Config;

use crate::classes::{self, has_text_property};
use crate::holes::{self, fill};
use crate::line_index::{self, LineIndex};
use crate::regions::{self, first_statement_offset, regions, Region};
use crate::resolving::{self, is_among, names_in, resolve};
use crate::sourcemap::{self, Run, Side, SourceMap};
use crate::syntax::{self, ElementNode, Hole, Item, Markup, Meaning, Prop, PropValue};
use crate::text::{self, find, find_from, length, same, starts_with};
use crate::tree::{self, open_name};

verus! {

/// A searched run has to be at least this long. Short needles match coincidences
/// — a lone `x` occurs inside `create("TextBox")` — and a coincidental match is
/// the one failure mode [`SourceMap::push`] cannot catch, since the text really
/// is identical.
pub const MIN_SEARCH: usize = 3;

/// How far the placing of a file has come: the runs recorded, and the output
/// offset reached.
pub struct Placing {
    pub runs: Seq<Run>,
    pub cursor: int,
}

/// The file, what it compiled to, and where the region being placed ends in
/// that. Searches never cross that end.
pub struct Site {
    pub source: Seq<char>,
    pub output: Seq<char>,
    pub limit: int,
}

impl Site {
    /// Whether there is output left to search.
    pub open spec fn open(self, placing: Placing) -> bool {
        text::cuttable(self.output, placing.cursor, self.limit)
    }

    /// The output left to search.
    pub open spec fn window(self, placing: Placing) -> Seq<u8> {
        text::bytes(self.output).subrange(placing.cursor, self.limit)
    }

    /// Whether a run would be recorded.
    pub open spec fn takes(self, runs: Seq<Run>, run: Run) -> bool {
        &&& run.length > 0
        &&& run.verbatim(self.source, self.output)
        &&& runs.len() > 0 ==> {
            &&& runs.last().end(Side::Source) <= run.source
            &&& runs.last().end(Side::Output) <= run.output
        }
    }

    /// The runs once one more was offered.
    pub open spec fn offered(self, runs: Seq<Run>, run: Run) -> Seq<Run> {
        if self.takes(runs, run) {
            runs.push(run)
        } else {
            runs
        }
    }

    /// Steps over generated text, to just past it.
    pub open spec fn anchored(self, placing: Placing, needle: Seq<char>) -> Option<Placing> {
        if !self.open(placing) {
            None
        } else {
            match text::found(self.window(placing), text::bytes(needle), 0) {
                Some(at) => Some(
                    Placing {
                        runs: placing.runs,
                        cursor: placing.cursor + at + text::bytes(needle).len(),
                    },
                ),
                None => None,
            }
        }
    }

    /// Records source bytes as a run, where they stand in the output.
    pub open spec fn verbatim(self, placing: Placing, start: int, length: int) -> Option<Placing> {
        if length <= 0 || !text::cuttable(self.source, start, start + length) || !self.open(
            placing,
        ) {
            None
        } else {
            let needle = text::bytes(self.source).subrange(start, start + length);
            match spot(self.window(placing), needle, MIN_SEARCH as int) {
                None => None,
                Some(at) => {
                    let run = run_at(start, placing.cursor + at, length);
                    if self.takes(placing.runs, run) {
                        Some(
                            Placing {
                                runs: placing.runs.push(run),
                                cursor: placing.cursor + at + length,
                            },
                        )
                    } else {
                        None
                    }
                },
            }
        }
    }

    /// Records a component's name, which is emitted as the call it becomes.
    pub open spec fn named(self, placing: Placing, start: int, name: Seq<char>) -> Option<Placing> {
        let length = text::bytes(name).len() as int;
        if length == 0 || !text::cuttable(self.source, start, start + length) || text::cut(
            self.source,
            start,
            start + length,
        ) != name || !self.open(placing) {
            None
        } else {
            match spot(self.window(placing), text::bytes(name + "("@), 0) {
                None => None,
                Some(at) => {
                    let run = run_at(start, placing.cursor + at, length);
                    if self.takes(placing.runs, run) {
                        Some(
                            Placing {
                                runs: placing.runs.push(run),
                                cursor: placing.cursor + at + length,
                            },
                        )
                    } else {
                        None
                    }
                },
            }
        }
    }

    /// Steps over `Key = `, recording the key itself when the author wrote it.
    pub open spec fn keyed(
        self,
        placing: Placing,
        written: Seq<char>,
        canonical: Seq<char>,
        start: int,
    ) -> Option<Placing> {
        let anchor = text::bytes(canonical + " = "@);
        if !self.open(placing) {
            None
        } else {
            match text::found(self.window(placing), anchor, 0) {
                None => None,
                Some(at) => {
                    let run = run_at(start, placing.cursor + at, text::bytes(written).len() as int);
                    Some(
                        Placing {
                            runs: if written == canonical {
                                self.offered(placing.runs, run)
                            } else {
                                placing.runs
                            },
                            cursor: placing.cursor + at + anchor.len(),
                        },
                    )
                },
            }
        }
    }

    /// A captured expression: verbatim, except for the LuauX nested in it.
    pub open spec fn hole(self, placing: Placing, hole: Option<Hole>) -> Placing
        decreases hole, 0int,
    {
        match hole {
            None => placing,
            Some(hole) => if hole.nested@.len() == 0 {
                self.verbatim(placing, hole.start as int, hole.end - hole.start).unwrap_or(placing)
            } else {
                let (reached, cursor) = self.nested(placing, hole.start as int, hole.nested@);
                self.up_to(reached, cursor, hole.end as int)
            },
        }
    }

    /// What stands between two source offsets, if anything does.
    pub open spec fn up_to(self, placing: Placing, start: int, end: int) -> Placing {
        if start < end {
            self.verbatim(placing, start, end - start).unwrap_or(placing)
        } else {
            placing
        }
    }

    /// The regions nested in an expression, and what stands before each. Also
    /// where the last of them ends.
    pub open spec fn nested(self, placing: Placing, start: int, nested: Seq<syntax::Nested>) -> (
        Placing,
        int,
    )
        decreases nested, 0int,
    {
        if nested.len() == 0 {
            (placing, start)
        } else {
            let (before, cursor) = self.nested(placing, start, nested.drop_last());
            let reached = self.up_to(before, cursor, nested.last().start as int);
            let after = match nested.last().node {
                Some(node) => self.node(reached, node),
                None => reached,
            };
            (after, nested.last().end as int)
        }
    }

    /// One node: an element, or the children of a fragment.
    pub open spec fn node(self, placing: Placing, node: Markup) -> Placing
        decreases node, 0int,
    {
        match node {
            Markup::Element(element) => {
                let plan = plan_of(element);
                let opened = if element.meaning is Component {
                    let written = element.name.written();
                    let start = tree::name_span(self.source, element.span.start + 1, written).0;
                    self.named(placing, start, written).unwrap_or(placing)
                } else {
                    placing
                };
                let keyed = self.props(opened, element.attributes@, plan);
                let told = self.text(keyed, element.children@, plan);
                self.items(told, element.children@, plan.consumes_expressions)
            },
            Markup::Fragment(fragment) => self.items(placing, fragment.children@, false),
        }
    }

    pub open spec fn props(self, placing: Placing, props: Seq<Prop>, plan: Plan) -> Placing
        decreases props, 0int,
    {
        if props.len() == 0 {
            placing
        } else {
            self.prop(self.props(placing, props.drop_last(), plan), props.last(), plan)
        }
    }

    /// One attribute. Text between the tags replaces a `Text` attribute, and
    /// what the compiler refuses is not emitted.
    pub open spec fn prop(self, placing: Placing, prop: Prop, plan: Plan) -> Placing
        decreases prop, 0int,
    {
        match prop {
            Prop::Spread { hole, .. } => self.hole(placing, hole),
            Prop::Named { name, key, value, span } => if plan.emits_text && name@ == "Text"@ {
                placing
            } else {
                match key {
                    None => placing,
                    Some(key) => match self.keyed(placing, name@, key@, span.start as int) {
                        Some(after) => match value {
                            PropValue::Expression(hole) => self.hole(after, hole),
                            PropValue::StringLiteral(literal) => {
                                let length = text::bytes(literal@).len() as int;
                                let start = if length <= span.end {
                                    span.end - length
                                } else {
                                    0
                                };
                                self.verbatim(after, start, length).unwrap_or(after)
                            },
                            PropValue::Boolean => self.anchored(after, "true"@).unwrap_or(after),
                        },
                        None => match value {
                            PropValue::Boolean => self.anchored(
                                placing,
                                key@ + " = true"@,
                            ).unwrap_or(placing),
                            _ => placing,
                        },
                    },
                }
            },
        }
    }

    /// The `Text` property that literal and expression children lower into.
    pub open spec fn text(self, placing: Placing, items: Seq<Item>, plan: Plan) -> Placing
        decreases items, 1int,
    {
        if !plan.emits_text {
            placing
        } else {
            match self.anchored(placing, "Text = "@) {
                None => placing,
                Some(after) => if plan.parts == 1 && plan.consumes_expressions {
                    self.lone(after, items)
                } else {
                    self.parts(after, items)
                },
            }
        }
    }

    /// A lone expression is emitted bare.
    pub open spec fn lone(self, placing: Placing, items: Seq<Item>) -> Placing
        decreases items, 0int,
    {
        if items.len() == 0 {
            placing
        } else {
            let before = self.lone(placing, items.drop_last());
            match items.last() {
                Item::Expression { hole, .. } => self.hole(before, hole),
                _ => before,
            }
        }
    }

    /// One of several is read through the compiler's helper.
    pub open spec fn parts(self, placing: Placing, items: Seq<Item>) -> Placing
        decreases items, 0int,
    {
        if items.len() == 0 {
            placing
        } else {
            let before = self.parts(placing, items.drop_last());
            match items.last() {
                Item::Expression { hole, .. } => match self.anchored(
                    before,
                    "__luaux_read"@ + "("@,
                ) {
                    Some(after) => self.hole(after, hole),
                    None => before,
                },
                _ => before,
            }
        }
    }

    pub open spec fn items(self, placing: Placing, items: Seq<Item>, consumed: bool) -> Placing
        decreases items, 0int,
    {
        if items.len() == 0 {
            placing
        } else {
            let before = self.items(placing, items.drop_last(), consumed);
            match items.last() {
                Item::Node(node) => self.node(before, node),
                Item::Expression { hole, .. } => if consumed {
                    before
                } else {
                    self.hole(before, hole)
                },
                _ => before,
            }
        }
    }
}

/// A run, from whole numbers.
pub open spec fn run_at(source: int, output: int, length: int) -> Run {
    Run { source: source as usize, output: output as usize, length: length as usize }
}

/// Where a text is taken to stand in a window: at its start, or else, if it is
/// long enough to be looked for, at its only occurrence. Picking between two is
/// guessing.
pub open spec fn spot(window: Seq<u8>, needle: Seq<u8>, least: int) -> Option<int> {
    if text::occurs(window, needle, 0) {
        Some(0)
    } else if needle.len() < least {
        None
    } else {
        match text::found(window, needle, 0) {
            Some(at) => if text::found(window, needle, at + 1) is None {
                Some(at)
            } else {
                None
            },
            None => None,
        }
    }
}

/// Which children lower into the `Text` property.
#[derive(Debug, Clone, Copy, PartialEq, Eq, Structural)]
pub struct Plan {
    pub emits_text: bool,
    pub consumes_expressions: bool,
    /// How many children do.
    pub parts: usize,
}

/// How many children are text or expressions.
pub open spec fn part_count(items: Seq<Item>) -> int
    decreases items.len(),
{
    if items.len() == 0 {
        0
    } else {
        part_count(items.drop_last()) + if items.last() is Text || items.last() is Expression {
            1int
        } else {
            0int
        }
    }
}

/// What an element's children lower into. A component takes children, not text;
/// a class with no `Text` property takes expressions as ordinary children; and
/// expressions beside elements are ambiguous, which the compiler refuses rather
/// than guessing.
pub open spec fn plan_of(element: ElementNode) -> Plan {
    let items = element.children@;
    let literals = exists|i: int| 0 <= i < items.len() && #[trigger] items[i] is Text;
    let expressions = exists|i: int| 0 <= i < items.len() && #[trigger] items[i] is Expression;
    let nodes = exists|i: int| 0 <= i < items.len() && #[trigger] items[i] is Node;
    match element.meaning {
        Meaning::Intrinsic(class) if (literals || expressions) && classes::properties_of(
            class@,
        ).contains("Text"@) && !(expressions && nodes) => Plan {
            emits_text: true,
            consumes_expressions: expressions,
            parts: part_count(items) as usize,
        },
        _ => Plan { emits_text: false, consumes_expressions: false, parts: 0 },
    }
}

struct Builder<'a> {
    source: &'a str,
    output: &'a str,
    map: SourceMap,
    /// Output offset reached so far. Monotone: the compiler emits in source
    /// order, so nothing is ever located behind it.
    cursor: usize,
    /// End of the region currently being mapped. Searches never cross it.
    limit: usize,
}

impl Builder<'_> {
    spec fn site(self) -> Site {
        Site { source: self.source@, output: self.output@, limit: self.limit as int }
    }

    spec fn placing(self) -> Placing {
        Placing { runs: self.map@, cursor: self.cursor as int }
    }

    spec fn wf(self) -> bool {
        &&& self.map.wf()
        &&& self.map.verbatim(self.source@, self.output@)
        &&& self.map.lost_count() == 0
        &&& self.map.abandoned_for() is None
    }

    /// Whether only what has been placed differs.
    spec fn follows(self, before: Self) -> bool {
        &&& self.source == before.source
        &&& self.output == before.output
        &&& self.limit == before.limit
        &&& self.wf()
    }

    /// Offers a run to the map.
    fn offer(&mut self, run: Run) -> (r: bool)
        requires
            old(self).wf(),
        ensures
            final(self).follows(*old(self)),
            final(self).cursor == old(self).cursor,
            r == old(self).site().takes(old(self).map@, run),
            final(self).map@ == old(self).site().offered(old(self).map@, run),
    {
        self.map.push(self.source, self.output, run)
    }

    /// Locates generated text and steps over it, recording nothing.
    ///
    /// Anchors like `Size = ` and `__luaux_read(` exist only in the output, so
    /// they carry no run — their value is that they put the cursor exactly on
    /// the verbatim text that follows.
    fn anchor(&mut self, needle: &str) -> (r: bool)
        requires
            old(self).wf(),
        ensures
            final(self).follows(*old(self)),
            r == (old(self).site().anchored(old(self).placing(), needle@) is Some),
            final(self).placing() == old(self).site().anchored(
                old(self).placing(),
                needle@,
            ).unwrap_or(old(self).placing()),
    {
        let window = match text::get(self.output, self.cursor, self.limit) {
            Some(window) => window,
            None => {
                return false;
            },
        };
        match find(window, needle) {
            Some(at) => {
                self.cursor = self.cursor + at + length(needle);
                true
            },
            None => false,
        }
    }

    /// Records `length` source bytes as a run, wherever they landed.
    ///
    /// Sitting at the cursor is the ordinary case and needs no search at all.
    /// The fallback exists for text that follows a nested region, whose emitted
    /// length is unknown — and it insists on a single unambiguous occurrence,
    /// because picking between two is guessing.
    fn verbatim(&mut self, source_start: usize, length: usize) -> (r: bool)
        requires
            old(self).wf(),
        ensures
            final(self).follows(*old(self)),
            r == (old(self).site().verbatim(
                old(self).placing(),
                source_start as int,
                length as int,
            ) is Some),
            final(self).placing() == old(self).site().verbatim(
                old(self).placing(),
                source_start as int,
                length as int,
            ).unwrap_or(old(self).placing()),
    {
        let n: usize = text::length(self.source);
        if length == 0 || length > n || source_start > n - length {
            return false;
        }
        let text = match text::get(self.source, source_start, source_start + length) {
            Some(text) => text,
            None => {
                return false;
            },
        };
        let window = match text::get(self.output, self.cursor, self.limit) {
            Some(window) => window,
            None => {
                return false;
            },
        };
        let at: usize = match locate(window, text, MIN_SEARCH) {
            Some(at) => at,
            None => {
                return false;
            },
        };
        let output: usize = self.cursor + at;
        if !self.offer(Run { source: source_start, output, length }) {
            return false;
        }
        self.cursor = output + length;
        true
    }

    /// Records a component's tag name, which is emitted as the call it becomes.
    ///
    /// Searched as `Row(` rather than as `Row`, because a bare name is far too
    /// easy to find twice and an ambiguous search records nothing at all:
    /// `<TextLabel><Label/></TextLabel>` has one inside the string
    /// `"TextLabel"`, which costs the whole feature for that element.
    ///
    /// Uniqueness is still required even so. Emission is in source order, so the
    /// *first* match is nearly always the right one — and "nearly always" is
    /// exactly what is refused here. An attribute whose value happens to contain
    /// `Row(`, on an element whose own name did not map, would put the run on
    /// text the author never wrote.
    fn component_name(&mut self, source_start: usize, name: &str) -> (r: bool)
        requires
            old(self).wf(),
        ensures
            final(self).follows(*old(self)),
            r == (old(self).site().named(old(self).placing(), source_start as int, name@) is Some),
            final(self).placing() == old(self).site().named(
                old(self).placing(),
                source_start as int,
                name@,
            ).unwrap_or(old(self).placing()),
    {
        let n: usize = length(self.source);
        let count: usize = length(name);
        if count == 0 || count > n || source_start > n - count {
            return false;
        }
        match text::get(self.source, source_start, source_start + count) {
            Some(there) => {
                if !same(there, name) {
                    return false;
                }
            },
            None => {
                return false;
            },
        }
        let mut needle = name.to_owned();
        needle.append("(");
        let window = match text::get(self.output, self.cursor, self.limit) {
            Some(window) => window,
            None => {
                return false;
            },
        };
        proof {
            text::lemma_bytes_concat(name@, "("@);
        }
        let at: usize = match locate(window, needle.as_str(), 0) {
            Some(at) => at,
            None => {
                return false;
            },
        };
        let output: usize = self.cursor + at;
        if !self.offer(Run { source: source_start, output, length: count }) {
            return false;
        }
        self.cursor = output + count;
        true
    }

    /// Steps over `Key = `, recording the key itself when the author wrote it.
    ///
    /// An attribute name is generated in the sense that the compiler decides
    /// where to put it — but when no alias renamed it, the text is the author's,
    /// character for character. Recording it is what lets luau-lsp answer about
    /// `Activated` at all: hover, go-to-definition, references and highlight on
    /// an attribute name have nowhere to go without a run here.
    ///
    /// An alias breaks that: `bgColor` in the source is `BackgroundColor3` in
    /// the output, so there is no shared text and no run — and the position
    /// falls back to what this server can say for itself.
    fn attribute_key(&mut self, written: &str, canonical: &str, source_start: usize) -> (r: bool)
        requires
            old(self).wf(),
        ensures
            final(self).follows(*old(self)),
            r == (old(self).site().keyed(
                old(self).placing(),
                written@,
                canonical@,
                source_start as int,
            ) is Some),
            final(self).placing() == old(self).site().keyed(
                old(self).placing(),
                written@,
                canonical@,
                source_start as int,
            ).unwrap_or(old(self).placing()),
    {
        let mut anchor = canonical.to_owned();
        anchor.append(" = ");
        let window = match text::get(self.output, self.cursor, self.limit) {
            Some(window) => window,
            None => {
                return false;
            },
        };
        let at: usize = match find(window, anchor.as_str()) {
            Some(at) => at,
            None => {
                return false;
            },
        };
        let output: usize = self.cursor + at;
        if same(written, canonical) {
            let _ = self.offer(Run { source: source_start, output, length: length(written) });
        }
        self.cursor = output + length(anchor.as_str());
        true
    }

    fn node(&mut self, node: &Markup)
        requires
            old(self).wf(),
            syntax::placed(old(self).source@, *node),
        ensures
            final(self).follows(*old(self)),
            final(self).placing() == old(self).site().node(old(self).placing(), *node),
        decreases node, 1int,
    {
        match node {
            Markup::Element(element) => self.element(element, node),
            Markup::Fragment(fragment) => self.children(&fragment.children, false, fragment.span),
        }
    }

    fn element(&mut self, element: &ElementNode, node: &Markup)
        requires
            old(self).wf(),
            *node == Markup::Element(*element),
            syntax::placed(old(self).source@, *node),
        ensures
            final(self).follows(*old(self)),
            final(self).placing() == old(self).site().node(old(self).placing(), *node),
        decreases node, 0int,
    {
        // A component's tag name is a *reference*: `<Row/>` emits `Row(`, the
        // same identifier the author wrote and bound. Recording it is what lets
        // luau-lsp answer about it at all — its inferred type, and the doc
        // comment above its binding — none of which this server can work out.
        //
        // An intrinsic's name is not a reference. `<Frame/>` emits
        // `create("Frame")`, where the text matches but means a string literal,
        // so a run there would point hover at a `string`. That is worse than
        // saying nothing, and worse than the answer we give ourselves.
        if matches!(element.meaning, Meaning::Component) {
            let written = element.name.as_written();
            let (start, _) = open_name(self.source, element.span.start, written.as_str());
            let _ = self.component_name(start, written.as_str());
        }
        let plan = plan(element);
        let ghost opened = *self;
        let mut i: usize = 0;
        while i < element.attributes.len()
            invariant
                self.follows(opened),
                *node == Markup::Element(*element),
                syntax::placed(opened.source@, *node),
                i <= element.attributes@.len(),
                self.placing() == opened.site().props(
                    opened.placing(),
                    element.attributes@.take(i as int),
                    plan,
                ),
            decreases element.attributes@.len() - i,
        {
            proof {
                assert(element.attributes@.take(i + 1).drop_last() =~= element.attributes@.take(
                    i as int,
                ));
                assert(syntax::placed_prop(
                    opened.source@,
                    element.attributes@[i as int],
                    element.span,
                ));
                assert(decreases_to!(node => node->Element_0.attributes@[i as int]));
                assert(opened.site().props(
                    opened.placing(),
                    element.attributes@.take(i + 1),
                    plan,
                ) == opened.site().prop(
                    opened.site().props(
                        opened.placing(),
                        element.attributes@.take(i as int),
                        plan,
                    ),
                    element.attributes@[i as int],
                    plan,
                ));
            }
            self.attribute(&element.attributes[i], plan, element.span);
            i = i + 1;
        }
        assert(element.attributes@.take(element.attributes@.len() as int)
            =~= element.attributes@);
        self.text(&element.children, plan, element.span);
        self.children(&element.children, plan.consumes_expressions, element.span);
    }

    fn attribute(&mut self, prop: &Prop, plan: Plan, outer: syntax::Extent)
        requires
            old(self).wf(),
            syntax::placed_prop(old(self).source@, *prop, outer),
        ensures
            final(self).follows(*old(self)),
            final(self).placing() == old(self).site().prop(old(self).placing(), *prop, plan),
        decreases prop, 0int,
    {
        match prop {
            Prop::Spread { hole, .. } => self.expression(hole),
            Prop::Named { name, key, value, span } => {
                // Text between the tags replaces a `Text` attribute, so the
                // attribute is never emitted.
                if plan.emits_text && same(name.as_str(), "Text") {
                    return ;
                }
                let key = match key {
                    Some(key) => key,
                    None => {
                        return ;
                    },
                };
                let known = self.attribute_key(name.as_str(), key.as_str(), span.start);
                match value {
                    PropValue::Expression(hole) => {
                        if known {
                            self.expression(hole);
                        }
                    },
                    PropValue::StringLiteral(literal) => {
                        if known {
                            // The span ends just past the closing quote, and the
                            // literal is stored with its quotes.
                            let count: usize = length(literal.as_str());
                            let start: usize = if count <= span.end {
                                span.end - count
                            } else {
                                0
                            };
                            let _ = self.verbatim(start, count);
                        }
                    },
                    PropValue::Boolean => {
                        if known {
                            // `Visible` becomes `Visible = true`; the `true` is
                            // ours, so it maps to nothing.
                            let _ = self.anchor("true");
                        } else {
                            // The written name is nowhere in the output. Step
                            // over the pair and record nothing.
                            let mut pair = key.clone();
                            pair.append(" = true");
                            let _ = self.anchor(pair.as_str());
                        }
                    },
                }
            },
        }
    }

    /// The `Text` property that literal and expression children lower into.
    fn text(&mut self, items: &Vec<Item>, plan: Plan, outer: syntax::Extent)
        requires
            old(self).wf(),
            forall|i: int|
                0 <= i < items@.len() ==> syntax::placed_child(
                    old(self).source@,
                    #[trigger] items@[i],
                    outer,
                ),
        ensures
            final(self).follows(*old(self)),
            final(self).placing() == old(self).site().text(old(self).placing(), items@, plan),
        decreases items, 0int,
    {
        if !plan.emits_text || !self.anchor("Text = ") {
            return ;
        }
        // A lone expression is emitted bare — Vide treats a function on a
        // property key as a source either way.
        let lone = plan.parts == 1 && plan.consumes_expressions;
        let ghost anchored = *self;
        let mut i: usize = 0;
        while i < items.len()
            invariant
                self.follows(anchored),
                i <= items@.len(),
                forall|j: int|
                    0 <= j < items@.len() ==> syntax::placed_child(
                        anchored.source@,
                        #[trigger] items@[j],
                        outer,
                    ),
                self.placing() == if lone {
                    anchored.site().lone(anchored.placing(), items@.take(i as int))
                } else {
                    anchored.site().parts(anchored.placing(), items@.take(i as int))
                },
            decreases items@.len() - i,
        {
            proof {
                assert(items@.take(i + 1).drop_last() =~= items@.take(i as int));
                assert(items@.take(i + 1).last() == items@[i as int]);
                assert(decreases_to!(items => items@[i as int]));
            }
            if let Item::Expression { hole, .. } = &items[i] {
                if lone || self.anchor(read_call().as_str()) {
                    self.expression(hole);
                }
            }
            i = i + 1;
        }
        assert(items@.take(items@.len() as int) =~= items@);
    }

    fn children(&mut self, items: &Vec<Item>, consumed: bool, outer: syntax::Extent)
        requires
            old(self).wf(),
            forall|i: int|
                0 <= i < items@.len() ==> syntax::placed_child(
                    old(self).source@,
                    #[trigger] items@[i],
                    outer,
                ),
        ensures
            final(self).follows(*old(self)),
            final(self).placing() == old(self).site().items(old(self).placing(), items@, consumed),
        decreases items, 0int,
    {
        let ghost before = *self;
        let mut i: usize = 0;
        while i < items.len()
            invariant
                self.follows(before),
                i <= items@.len(),
                forall|j: int|
                    0 <= j < items@.len() ==> syntax::placed_child(
                        before.source@,
                        #[trigger] items@[j],
                        outer,
                    ),
                self.placing() == before.site().items(
                    before.placing(),
                    items@.take(i as int),
                    consumed,
                ),
            decreases items@.len() - i,
        {
            proof {
                assert(items@.take(i + 1).drop_last() =~= items@.take(i as int));
                assert(items@.take(i + 1).last() == items@[i as int]);
                assert(decreases_to!(items => items@[i as int]));
                assert(syntax::placed_child(before.source@, items@[i as int], outer));
            }
            match &items[i] {
                Item::Node(node) => self.node(node),
                Item::Expression { hole, .. } => {
                    if !consumed {
                        self.expression(hole);
                    }
                },
                _ => {},
            }
            i = i + 1;
        }
        assert(items@.take(items@.len() as int) =~= items@);
    }

    /// A captured expression, which is verbatim except where LuauX is nested in
    /// it — those parts were compiled and have to be walked, not matched.
    fn expression(&mut self, hole: &Option<Hole>)
        requires
            old(self).wf(),
            syntax::placed_hole(old(self).source@, *hole),
        ensures
            final(self).follows(*old(self)),
            final(self).placing() == old(self).site().hole(old(self).placing(), *hole),
        decreases hole, 0int,
    {
        let inner = match hole {
            Some(inner) => inner,
            None => {
                return ;
            },
        };
        if inner.nested.len() == 0 {
            let _ = self.verbatim(inner.start, inner.end - inner.start);
            return ;
        }
        let ghost before = *self;
        let mut cursor: usize = inner.start;
        let mut i: usize = 0;
        while i < inner.nested.len()
            invariant
                self.follows(before),
                *hole == Some(*inner),
                syntax::placed_hole(before.source@, *hole),
                i <= inner.nested@.len(),
                (self.placing(), cursor as int) == before.site().nested(
                    before.placing(),
                    inner.start as int,
                    inner.nested@.take(i as int),
                ),
            decreases inner.nested@.len() - i,
        {
            let nested = &inner.nested[i];
            proof {
                assert(inner.nested@.take(i + 1).drop_last() =~= inner.nested@.take(i as int));
                assert(inner.nested@.take(i + 1).last() == inner.nested@[i as int]);
                assert(decreases_to!(hole => hole->Some_0.nested@[i as int]));
                assert(syntax::placed_nested(before.source@, inner.nested@[i as int]));
            }
            if nested.start > cursor {
                let _ = self.verbatim(cursor, nested.start - cursor);
            }
            if let Some(node) = &nested.node {
                self.node(node);
            }
            cursor = nested.end;
            i = i + 1;
        }
        assert(inner.nested@.take(inner.nested@.len() as int) =~= inner.nested@);
        if cursor < inner.end {
            let _ = self.verbatim(cursor, inner.end - cursor);
        }
    }
}

/// The compiler's helper that reads a value which may be a source, as it is
/// called.
fn read_call() -> (r: String)
    ensures
        r@ == "__luaux_read"@ + "("@,
{
    let mut call = read_helper().to_owned();
    call.append("(");
    call
}

/// Where `text` is taken to stand in `window`.
fn locate(window: &str, text: &str, least: usize) -> (r: Option<usize>)
    requires
        text@.len() > 0,
    ensures
        match (r, spot(text::bytes(window@), text::bytes(text@), least as int)) {
            (Some(a), Some(b)) => a == b,
            (None, None) => true,
            _ => false,
        },
        r matches Some(at) ==> at + text::bytes(text@).len() <= text::bytes(window@).len(),
{
    if starts_with(window, text) {
        return Some(0);
    }
    if length(text) < least {
        return None;
    }
    let at: usize = match find(window, text) {
        Some(at) => at,
        None => {
            return None;
        },
    };
    let n: usize = length(window);
    if at == n {
        proof {
            vstd::utf8::encode_utf8_first_scalar(text@);
        }
    }
    match find_from(window, text, at + 1) {
        Some(_) => None,
        None => Some(at),
    }
}

/// Which of an element's children lower into the `Text` property. Mirrors the
/// Vide backend's own rules closely enough to know what it emitted, and stays
/// silent when it cannot tell.
fn plan(element: &ElementNode) -> (r: Plan)
    ensures
        r == plan_of(*element),
{
    let items = &element.children;
    let mut literals = false;
    let mut expressions = false;
    let mut nodes = false;
    let mut parts: usize = 0;
    let mut i: usize = 0;
    while i < items.len()
        invariant
            i <= items@.len(),
            *items == element.children,
            literals == exists|j: int| 0 <= j < i && #[trigger] items@[j] is Text,
            expressions == exists|j: int| 0 <= j < i && #[trigger] items@[j] is Expression,
            nodes == exists|j: int| 0 <= j < i && #[trigger] items@[j] is Node,
            parts <= i,
            parts == part_count(items@.take(i as int)),
        decreases items@.len() - i,
    {
        assert(items@.take(i + 1).drop_last() =~= items@.take(i as int));
        assert(items@.take(i + 1).last() == items@[i as int]);
        match &items[i] {
            Item::Text { .. } => {
                literals = true;
                parts = parts + 1;
            },
            Item::Expression { .. } => {
                expressions = true;
                parts = parts + 1;
            },
            Item::Node(_) => {
                nodes = true;
            },
            Item::Comment { .. } => {},
        }
        i = i + 1;
    }
    assert(items@.take(items@.len() as int) =~= items@);
    // A component takes children, not text; a class with no `Text` property
    // takes expressions as ordinary children. Both compile without a plan.
    if let Meaning::Intrinsic(class) = &element.meaning {
        if (literals || expressions) && !(expressions && nodes) && has_text_property(
            class.as_str(),
        ) {
            return Plan { emits_text: true, consumes_expressions: expressions, parts };
        }
    }
    Plan { emits_text: false, consumes_expressions: false, parts: 0 }
}

/// The preamble and the text it was put before, as the compiler writes them.
pub uninterp spec fn injected(
    text: Seq<char>,
    merge: bool,
    read: bool,
    bound: Set<Seq<char>>,
) -> Option<Seq<char>>;

/// [`luaux::imports::MERGE_HELPER`]: what the helper for spreads is called.
#[verifier::external_body]
fn merge_helper() -> (r: &'static str)
    ensures
        r@ == "__luaux_merge"@,
{
    luaux::imports::MERGE_HELPER
}

/// [`luaux::imports::READ_HELPER`]: what the helper for sources is called.
#[verifier::external_body]
fn read_helper() -> (r: &'static str)
    ensures
        r@ == "__luaux_read"@,
{
    luaux::imports::READ_HELPER
}

/// [`luaux::imports::inject`], asked for either helper and not for the element
/// factory: a text with the preamble put before its first statement. Without
/// the factory the settings play no part in it.
#[verifier::external_body]
fn inject(text: &str, merge: bool, read: bool, bound: &Vec<String>, config: &Config) -> (r: Option<
    String,
>)
    ensures
        text::view_of(r) == injected(text@, merge, read, resolving::as_set(bound@)),
{
    let helpers = luaux::backend::Helpers { create: false, merge_props: merge, read };
    let bound = bound.iter().cloned().collect();
    luaux::imports::inject(text, helpers, &bound, config).ok()
}

/// Whether the output defines one of the compiler's helpers that the file does
/// not bind itself.
pub open spec fn defines(output: Seq<char>, bound: Set<Seq<char>>, helper: Seq<char>) -> bool {
    &&& text::found(
        text::bytes(output),
        text::bytes("local function "@ + helper + "("@),
        0,
    ) is Some
    &&& !bound.contains(helper)
}

fn uses(output: &str, bound: &Vec<String>, helper: &str) -> (r: bool)
    ensures
        r == defines(output@, resolving::as_set(bound@), helper@),
{
    let mut needle = "local function ".to_owned();
    needle.append(helper);
    needle.append("(");
    find(output, needle.as_str()).is_some() && !is_among(bound, helper)
}

/// Where the injected preamble goes, and how long it is.
pub open spec fn preamble_of(
    source: Seq<char>,
    output: Seq<char>,
    bound: Set<Seq<char>>,
) -> Option<(int, int)> {
    let merge = defines(output, bound, "__luaux_merge"@);
    let read = defines(output, bound, "__luaux_read"@);
    if !merge && !read {
        None
    } else {
        match (regions::first_statement_from(source, 0), injected("x"@, merge, read, bound)) {
            (Some(offset), Some(text)) => if text::bytes(text).len() >= 1 {
                Some((offset, text::bytes(text).len() - 1))
            } else {
                None
            },
            _ => None,
        }
    }
}

/// Where the injected helper preamble goes, and how long it is.
///
/// The compiler puts helpers on the line of the first statement, so everything
/// from there on shifts. Asking it to inject rather than reconstructing the
/// text keeps this correct if the helpers ever change.
fn preamble(source: &str, output: &str, bound: &Vec<String>, config: &Config) -> (r: Option<
    (usize, usize),
>)
    ensures
        same_split(r, preamble_of(source@, output@, resolving::as_set(bound@))),
{
    let merge = uses(output, bound, merge_helper());
    let read = uses(output, bound, read_helper());
    if !merge && !read {
        return None;
    }
    let offset: usize = match first_statement_offset(source) {
        Some(offset) => offset,
        None => {
            return None;
        },
    };
    // A one-byte stand-in for the file, so what comes back is preamble + "x".
    match inject("x", merge, read, bound, config) {
        Some(text) => {
            let count: usize = length(text.as_str());
            if count >= 1 {
                Some((offset, count - 1))
            } else {
                None
            }
        },
        None => None,
    }
}

/// Whether a split is the one promised.
pub open spec fn same_split(split: Option<(usize, usize)>, promised: Option<(int, int)>) -> bool {
    match (split, promised) {
        (Some(a), Some(b)) => a.0 == b.0 && a.1 == b.1,
        (None, None) => true,
        _ => false,
    }
}

/// An offset, stopped at the largest there is.
pub open spec fn capped(offset: int) -> int {
    if offset <= usize::MAX {
        offset
    } else {
        usize::MAX as int
    }
}

fn advance(offset: usize, by: usize) -> (r: usize)
    ensures
        r == capped(offset + by),
{
    if by <= usize::MAX - offset {
        offset + by
    } else {
        usize::MAX
    }
}

impl Site {
    /// Records the untouched stretch of source up to `until`, in two halves
    /// where the preamble sits between them. Also how far the output is then.
    pub open spec fn identity(
        self,
        runs: Seq<Run>,
        start: int,
        cursor: int,
        until: int,
        split: Option<(usize, usize)>,
    ) -> (Seq<Run>, int) {
        match split {
            Some((at, length)) if start <= at < until => {
                let (first, reached) = self.stretch(runs, start, cursor, at as int);
                self.stretch(first, at as int, capped(reached + length), until)
            },
            _ => self.stretch(runs, start, cursor, until),
        }
    }

    /// Records the source between two offsets as standing where the output is.
    pub open spec fn stretch(self, runs: Seq<Run>, start: int, cursor: int, until: int) -> (
        Seq<Run>,
        int,
    ) {
        if start < until {
            (
                self.offered(runs, run_at(start, cursor, until - start)),
                capped(cursor + (until - start)),
            )
        } else {
            (runs, cursor)
        }
    }

    /// The regions from one to another that share a line, and what stands
    /// between them.
    pub open spec fn group(self, placing: Placing, found: Seq<Region>, first: int, last: int) -> Placing
        decreases last - first,
    {
        if first >= last {
            self.node(placing, found[last].node)
        } else {
            let before = self.group(placing, found, first, last - 1);
            let between = self.verbatim(
                before,
                found[last - 1].end as int,
                found[last].start - found[last - 1].end,
            ).unwrap_or(before);
            self.node(between, found[last].node)
        }
    }
}

/// Whether no run is empty, and each ends, in both files, before the next begins.
pub open spec fn in_turn(runs: Seq<Run>) -> bool {
    &&& forall|i: int| 0 <= i < runs.len() ==> (#[trigger] runs[i]).length > 0
    &&& forall|i: int, j: int|
        #![trigger runs[i], runs[j]]
        0 <= i < j < runs.len() ==> runs[i].end(Side::Source) <= runs[j].source && runs[i].end(
            Side::Output,
        ) <= runs[j].output
}

/// The last of the regions that follow one on the same line.
pub open spec fn group_end(source: Seq<char>, found: Seq<Region>, index: int) -> int
    decreases found.len() - index,
{
    if index + 1 < found.len() && line_index::newlines(
        text::bytes(source),
        found[index].end as int,
    ) == line_index::newlines(text::bytes(source), found[index + 1].start as int) {
        group_end(source, found, index + 1)
    } else {
        index
    }
}

/// Where the generated region that ends at a source offset stops in the output:
/// the end of the same line there, less what follows the region on its line, if
/// that really is there.
pub open spec fn output_end(source: Seq<char>, output: Seq<char>, source_end: int) -> Option<int> {
    let line = line_index::newlines(text::bytes(source), source_end);
    let finish = line_index::line_finish(source, line);
    let end = line_index::line_finish(output, line) - (finish - source_end);
    if source_end <= finish && line_index::line_begin(output, line) <= end && text::cuttable(
        output,
        end,
        line_index::line_finish(output, line),
    ) && text::cut(output, end, line_index::line_finish(output, line)) == text::cut(
        source,
        source_end,
        finish,
    ) {
        Some(end)
    } else {
        None
    }
}

/// The runs of a file, from a region on.
///
/// Regions sharing a line are placed as a group: only the last one on the line
/// can have its output end pinned by the line's suffix. Without a bound the
/// rest of the file cannot be placed.
pub open spec fn runs_from(
    source: Seq<char>,
    output: Seq<char>,
    found: Seq<Region>,
    split: Option<(usize, usize)>,
    index: int,
    runs: Seq<Run>,
    source_cursor: int,
    output_cursor: int,
) -> Seq<Run>
    decreases found.len() - index,
{
    let whole = Site { source, output, limit: text::bytes(output).len() as int };
    if index >= found.len() {
        whole.identity(
            runs,
            source_cursor,
            output_cursor,
            text::bytes(source).len() as int,
            split,
        ).0
    } else {
        let last = group_end(source, found, index);
        match output_end(source, output, found[last].end as int) {
            Some(limit) if index <= last < found.len() => {
                let (before, cursor) = whole.identity(
                    runs,
                    source_cursor,
                    output_cursor,
                    found[index].start as int,
                    split,
                );
                let after = (Site { source, output, limit }).group(
                    Placing { runs: before, cursor },
                    found,
                    index,
                    last,
                );
                runs_from(
                    source,
                    output,
                    found,
                    split,
                    last + 1,
                    after.runs,
                    found[last].end as int,
                    limit,
                )
            },
            _ => runs,
        }
    }
}

/// The runs of a file. There are none unless the lines were preserved.
pub open spec fn runs_of(
    source: Seq<char>,
    output: Seq<char>,
    found: Seq<Region>,
    split: Option<(usize, usize)>,
) -> Seq<Run> {
    if line_index::line_starts(source).len() != line_index::line_starts(output).len() {
        Seq::empty()
    } else {
        runs_from(source, output, found, split, 0, Seq::empty(), 0, 0)
    }
}

/// Whether regions are those of a file, every `{…}` looked into and every name
/// resolved.
pub open spec fn prepared(source: Seq<char>, config: Config, found: Seq<Region>) -> bool {
    &&& found.len() == regions::regions_of(source).len()
    &&& forall|i: int|
        #![trigger found[i]]
        0 <= i < found.len() ==> {
            &&& found[i].start == regions::regions_of(source)[i].start
            &&& found[i].end == regions::regions_of(source)[i].end
            &&& exists|full: Markup| #[trigger]
                holes::filled(source, regions::regions_of(source)[i].node, full)
                    && resolving::resolved(
                    config,
                    resolving::names_of(source),
                    full,
                    found[i].node,
                )
        }
}

/// Whether runs are those of a file and what it compiled to: of its regions,
/// looked into and resolved, and split where the preamble goes.
pub open spec fn mapped_by(
    source: Seq<char>,
    output: Seq<char>,
    config: Config,
    runs: Seq<Run>,
) -> bool {
    exists|found: Seq<Region>, split: Option<(usize, usize)>|
        #![trigger runs_of(source, output, found, split)]
        {
            &&& prepared(source, config, found)
            &&& same_split(
                split,
                preamble_of(
                    source,
                    output,
                    resolving::names_of(source),
                ),
            )
            &&& runs == runs_of(source, output, found, split)
        }
}

/// Maps a file to what the compiler made of it.
pub fn build(source: &str, output: &str, config: &Config) -> (r: SourceMap)
    ensures
        r.wf(),
        r.verbatim(source@, output@),
        r.lost_count() == 0,
        r.abandoned_for() is None,
        mapped_by(source@, output@, *config, r@),
{
    let bound = names_in(source, config);
    let found = prepare(source, config, &bound);
    let split = preamble(source, output, &bound, config);
    build_from(source, output, &found, split)
}

/// The regions of a file, looked into and resolved.
fn prepare(source: &str, config: &Config, bound: &Vec<String>) -> (r: Vec<Region>)
    requires
        resolving::as_set(bound@) == resolving::names_of(source@),
    ensures
        prepared(source@, *config, r@),
        regions::laid_out(source@, r@),
{
    let found = regions(source);
    let ghost all = found@;
    let mut out: Vec<Region> = Vec::new();
    for region in it: found
        invariant
            it.seq() == all,
            all == regions::regions_of(source@),
            resolving::as_set(bound@) == resolving::names_of(source@),
            regions::laid_out(source@, all),
            out@.len() == it.index(),
            forall|i: int|
                #![trigger out@[i]]
                0 <= i < out@.len() ==> {
                    &&& out@[i].start == all[i].start
                    &&& out@[i].end == all[i].end
                    &&& out@[i].node.span() == all[i].node.span()
                    &&& syntax::placed(source@, out@[i].node)
                    &&& exists|full: Markup| #[trigger]
                        holes::filled(source@, all[i].node, full) && resolving::resolved(
                            *config,
                            resolving::as_set(bound@),
                            full,
                            out@[i].node,
                        )
                },
    {
        assert(region == all[it.index()]);
        let full = fill(source, region.node);
        let ghost kept = full;
        assert(kept.span() == region.node.span());
        let node = resolve(config, bound, full);
        proof {
            resolving::lemma_resolved_placed(
                source@,
                *config,
                resolving::as_set(bound@),
                kept,
                node,
            );
            assert(holes::filled(source@, all[it.index()].node, kept));
        }
        out.push(Region { start: region.start, end: region.end, node });
    }
    proof {
        assert forall|i: int, j: int|
            #![trigger out@[i], out@[j]]
            0 <= i < j < out@.len() implies out@[i].end <= out@[j].start by {
            assert(all[i].end <= all[j].start);
        }
        assert forall|i: int| #![trigger out@[i]] 0 <= i < out@.len() implies {
            &&& out@[i].start < out@[i].end <= text::bytes(source@).len()
            &&& text::boundary(source@, out@[i].start as int)
            &&& text::boundary(source@, out@[i].end as int)
            &&& out@[i].node.span() == (syntax::Extent { start: out@[i].start, end: out@[i].end })
        } by {
            assert(all[i].start < all[i].end);
        }
    }
    out
}

/// Maps a file whose regions have been looked into and resolved.
pub fn build_from(
    source: &str,
    output: &str,
    found: &Vec<Region>,
    split: Option<(usize, usize)>,
) -> (r: SourceMap)
    requires
        regions::laid_out(source@, found@),
    ensures
        r.wf(),
        r.verbatim(source@, output@),
        r.lost_count() == 0,
        r.abandoned_for() is None,
        r@ == runs_of(source@, output@, found@, split),
{
    let source_lines = LineIndex::new(source);
    let output_lines = LineIndex::new(output);
    // Line preservation is the load-bearing assumption. If it does not hold, the
    // whole approach is invalid, so produce nothing rather than something wrong.
    if source_lines.line_count() != output_lines.line_count() {
        return SourceMap::new();
    }
    let whole: usize = length(output);
    let mut builder = Builder { source, output, map: SourceMap::new(), cursor: 0, limit: whole };
    let mut source_cursor: usize = 0;
    let mut output_cursor: usize = 0;
    let mut index: usize = 0;
    while index < found.len()
        invariant
            builder.wf(),
            builder.source@ == source@,
            builder.output@ == output@,
            whole == text::bytes(output@).len(),
            source_lines.of(source@),
            source_lines.wf(),
            output_lines.of(output@),
            line_index::line_starts(source@).len() == line_index::line_starts(output@).len(),
            regions::laid_out(source@, found@),
            index <= found@.len(),
            source_cursor <= text::bytes(source@).len(),
            index > 0 ==> source_cursor == found@[index - 1].end,
            index == 0 ==> source_cursor == 0,
            runs_from(source@, output@, found@, split, 0, Seq::empty(), 0, 0) == runs_from(
                source@,
                output@,
                found@,
                split,
                index as int,
                builder.map@,
                source_cursor as int,
                output_cursor as int,
            ),
        decreases found@.len() - index,
    {
        let last: usize = last_on_line(&source_lines, source, found, index);
        let ended: usize = found[last].end;
        assert(found@[last as int].end == ended);
        let group_end: usize = match region_output_end(
            source,
            output,
            &source_lines,
            &output_lines,
            ended,
        ) {
            Some(group_end) => group_end,
            // Without a bound the rest of the file cannot be placed. Stop, and
            // keep what is already known to be right.
            None => {
                return builder.map;
            },
        };
        builder.limit = whole;
        let until: usize = found[index].start;
        assert(found@[index as int].start == until);
        output_cursor = builder.identity(source_cursor, output_cursor, until, split);
        builder.cursor = output_cursor;
        builder.limit = group_end;
        let ghost start = builder;
        let mut step: usize = index;
        builder.node(&found[index].node);
        while step < last
            invariant
                builder.follows(start),
                start.source@ == source@,
                regions::laid_out(source@, found@),
                index <= step <= last < found@.len(),
                builder.placing() == start.site().group(
                    start.placing(),
                    found@,
                    index as int,
                    step as int,
                ),
            decreases last - step,
        {
            let between: usize = found[step].end;
            let next: usize = found[step + 1].start;
            assert(found@[step as int].end <= found@[step + 1].start);
            let _ = builder.verbatim(between, next - between);
            step = step + 1;
            builder.node(&found[step].node);
        }
        output_cursor = group_end;
        source_cursor = ended;
        index = last + 1;
    }
    builder.limit = whole;
    let _ = builder.identity(source_cursor, output_cursor, length(source), split);
    builder.map
}

/// The last of the regions that share a line with `index`.
fn last_on_line(lines: &LineIndex, source: &str, found: &Vec<Region>, index: usize) -> (r: usize)
    requires
        lines.of(source@),
        lines.wf(),
        regions::laid_out(source@, found@),
        index < found@.len(),
    ensures
        r == group_end(source@, found@, index as int),
        index <= r < found@.len(),
{
    let count: usize = found.len();
    let mut last: usize = index;
    while count - last > 1 && lines.line_of(found[last].end) == lines.line_of(
        found[last + 1].start,
    )
        invariant
            lines.of(source@),
            lines.wf(),
            regions::laid_out(source@, found@),
            count == found@.len(),
            index <= last < found@.len(),
            group_end(source@, found@, index as int) == group_end(source@, found@, last as int),
        decreases found@.len() - last,
    {
        assert(found@[last as int].end <= text::bytes(source@).len());
        assert(found@[last + 1].start <= text::bytes(source@).len());
        last = last + 1;
    }
    proof {
        assert(found@[last as int].end <= text::bytes(source@).len());
        if last + 1 < found@.len() {
            assert(found@[last + 1].start <= text::bytes(source@).len());
        }
    }
    last
}

/// Where the generated region ending at `source_end` stops in the output.
///
/// Everything after a region on its final line is copied verbatim, so the output
/// line's own end minus that suffix is the answer — no search, no guess.
fn region_output_end(
    source: &str,
    output: &str,
    source_lines: &LineIndex,
    output_lines: &LineIndex,
    source_end: usize,
) -> (r: Option<usize>)
    requires
        source_lines.of(source@),
        source_lines.wf(),
        output_lines.of(output@),
        source_end <= text::bytes(source@).len(),
        text::boundary(source@, source_end as int),
    ensures
        sourcemap::same_offset(r, output_end(source@, output@, source_end as int)),
{
    let line: usize = source_lines.line_of(source_end);
    let (_, source_line_end) = source_lines.line_range(source, line);
    let (output_line_start, output_line_end) = output_lines.line_range(output, line);
    if source_end > source_line_end {
        return None;
    }
    let suffix: usize = source_line_end - source_end;
    if suffix > output_line_end {
        return None;
    }
    let end: usize = output_line_end - suffix;
    if end < output_line_start {
        return None;
    }
    // The suffix must really be there; if it is not, the line does not line up
    // and nothing about this region can be trusted.
    match (
        text::get(output, end, output_line_end),
        text::get(source, source_end, source_line_end),
    ) {
        (Some(there), Some(here)) => if same(there, here) {
            Some(end)
        } else {
            None
        },
        _ => None,
    }
}

impl Builder<'_> {
    /// Records the untouched stretch from `source_cursor` up to `until`, and
    /// returns how far the output is then.
    ///
    /// Split at the injection point, since the helper preamble sits between the
    /// two halves and belongs to neither.
    fn identity(
        &mut self,
        source_cursor: usize,
        output_cursor: usize,
        until: usize,
        split: Option<(usize, usize)>,
    ) -> (r: usize)
        requires
            old(self).wf(),
        ensures
            final(self).follows(*old(self)),
            (final(self).map@, r as int) == old(self).site().identity(
                old(self).map@,
                source_cursor as int,
                output_cursor as int,
                until as int,
                split,
            ),
    {
        let mut start: usize = source_cursor;
        let mut reached: usize = output_cursor;
        if let Some((at, length)) = split {
            if start <= at && at < until {
                if at > start {
                    let _ = self.offer(Run { source: start, output: reached, length: at - start });
                    reached = advance(reached, at - start);
                }
                reached = advance(reached, length);
                start = at;
            }
        }
        if until > start {
            let _ = self.offer(Run { source: start, output: reached, length: until - start });
            reached = advance(reached, until - start);
        }
        reached
    }
}

impl Site {
    /// Whether placing more went forward and stayed within the region: what was
    /// recorded before is still there, and what was recorded since lies at or
    /// past where the cursor was and does not cross the region's end.
    pub open spec fn advances(self, before: Placing, after: Placing) -> bool {
        &&& before.cursor <= after.cursor
        &&& before.cursor <= self.limit ==> after.cursor <= self.limit
        &&& before.runs.len() <= after.runs.len()
        &&& forall|i: int| 0 <= i < before.runs.len() ==> #[trigger] after.runs[i] == before.runs[i]
        &&& forall|i: int|
            before.runs.len() <= i < after.runs.len() ==> before.cursor <= (
            #[trigger] after.runs[i]).output && after.runs[i].end(Side::Output) <= self.limit
        &&& in_turn(before.runs) ==> in_turn(after.runs)
    }

    /// A run that is taken comes after those before it.
    pub proof fn lemma_in_turn(self, runs: Seq<Run>, run: Run)
        requires
            in_turn(runs),
        ensures
            in_turn(self.offered(runs, run)),
    {
        if self.takes(runs, run) {
            let all = runs.push(run);
            assert forall|i: int, j: int|
                #![trigger all[i], all[j]]
                0 <= i < j < all.len() implies all[i].end(Side::Source) <= all[j].source
                && all[i].end(Side::Output) <= all[j].output by {
                if j == runs.len() && i < runs.len() - 1 {
                    assert(runs[i].end(Side::Source) <= runs.last().source);
                }
            }
        }
    }

    pub proof fn lemma_advances_on(self, a: Placing, b: Placing, c: Placing)
        requires
            self.advances(a, b),
            self.advances(b, c),
        ensures
            self.advances(a, c),
    {
        assert forall|i: int| 0 <= i < a.runs.len() implies #[trigger] c.runs[i] == a.runs[i] by {
            assert(b.runs[i] == a.runs[i]);
        }
        assert forall|i: int| a.runs.len() <= i < c.runs.len() implies a.cursor <= (
        #[trigger] c.runs[i]).output && c.runs[i].end(Side::Output) <= self.limit by {
            if i < b.runs.len() {
                assert(c.runs[i] == b.runs[i]);
            }
        }
    }

    pub proof fn lemma_anchored_advances(self, placing: Placing, needle: Seq<char>)
        ensures
            self.advances(placing, self.anchored(placing, needle).unwrap_or(placing)),
    {
        if self.open(placing) {
            text::lemma_found(self.window(placing), text::bytes(needle), 0);
        }
    }

    pub proof fn lemma_verbatim_advances(self, placing: Placing, start: int, length: int)
        requires
            text::bytes(self.output).len() <= usize::MAX,
        ensures
            self.advances(placing, self.verbatim(placing, start, length).unwrap_or(placing)),
    {
        if length > 0 && text::cuttable(self.source, start, start + length) && self.open(placing) {
            let needle = text::bytes(self.source).subrange(start, start + length);
            text::lemma_found(self.window(placing), needle, 0);
            if let Some(at) = spot(self.window(placing), needle, MIN_SEARCH as int) {
                if in_turn(placing.runs) {
                    self.lemma_in_turn(
                        placing.runs,
                        run_at(start, placing.cursor + at, length),
                    );
                }
            }
        }
    }

    pub proof fn lemma_named_advances(self, placing: Placing, start: int, name: Seq<char>)
        requires
            text::bytes(self.output).len() <= usize::MAX,
        ensures
            self.advances(placing, self.named(placing, start, name).unwrap_or(placing)),
    {
        if self.open(placing) {
            text::lemma_found(self.window(placing), text::bytes(name + "("@), 0);
            text::lemma_bytes_concat(name, "("@);
            if let Some(at) = spot(self.window(placing), text::bytes(name + "("@), 0) {
                if in_turn(placing.runs) {
                    let length = text::bytes(name).len() as int;
                    self.lemma_in_turn(
                        placing.runs,
                        run_at(start, placing.cursor + at, length),
                    );
                }
            }
        }
    }

    pub proof fn lemma_keyed_advances(
        self,
        placing: Placing,
        written: Seq<char>,
        canonical: Seq<char>,
        start: int,
    )
        requires
            text::bytes(self.output).len() <= usize::MAX,
        ensures
            self.advances(placing, self.keyed(placing, written, canonical, start).unwrap_or(placing)),
    {
        if self.open(placing) {
            let anchor = text::bytes(canonical + " = "@);
            text::lemma_found(self.window(placing), anchor, 0);
            text::lemma_bytes_concat(canonical, " = "@);
            if let Some(at) = text::found(self.window(placing), anchor, 0) {
                if in_turn(placing.runs) {
                    let length = text::bytes(written).len() as int;
                    self.lemma_in_turn(
                        placing.runs,
                        run_at(start, placing.cursor + at, length),
                    );
                }
            }
        }
    }

    pub proof fn lemma_hole_advances(self, placing: Placing, hole: Option<Hole>)
        requires
            text::bytes(self.output).len() <= usize::MAX,
        ensures
            self.advances(placing, self.hole(placing, hole)),
        decreases hole, 0int,
    {
        if let Some(hole) = hole {
            if hole.nested@.len() == 0 {
                self.lemma_verbatim_advances(placing, hole.start as int, hole.end - hole.start);
            } else {
                let (reached, cursor) = self.nested(placing, hole.start as int, hole.nested@);
                self.lemma_nested_advances(placing, hole.start as int, hole.nested@);
                self.lemma_verbatim_advances(reached, cursor, hole.end - cursor);
                self.lemma_advances_on(
                    placing,
                    reached,
                    self.up_to(reached, cursor, hole.end as int),
                );
            }
        }
    }

    pub proof fn lemma_nested_advances(self, placing: Placing, start: int, nested: Seq<syntax::Nested>)
        requires
            text::bytes(self.output).len() <= usize::MAX,
        ensures
            self.advances(placing, self.nested(placing, start, nested).0),
        decreases nested, 0int,
    {
        if nested.len() > 0 {
            let (before, cursor) = self.nested(placing, start, nested.drop_last());
            let reached = self.up_to(before, cursor, nested.last().start as int);
            self.lemma_nested_advances(placing, start, nested.drop_last());
            self.lemma_verbatim_advances(before, cursor, nested.last().start - cursor);
            self.lemma_advances_on(placing, before, reached);
            if let Some(node) = nested.last().node {
                self.lemma_node_advances(reached, node);
                self.lemma_advances_on(placing, reached, self.node(reached, node));
            }
        }
    }

    pub proof fn lemma_node_advances(self, placing: Placing, node: Markup)
        requires
            text::bytes(self.output).len() <= usize::MAX,
        ensures
            self.advances(placing, self.node(placing, node)),
        decreases node, 0int,
    {
        match node {
            Markup::Element(element) => {
                let plan = plan_of(element);
                let written = element.name.written();
                let start = tree::name_span(self.source, element.span.start + 1, written).0;
                self.lemma_named_advances(placing, start, written);
                let opened = if element.meaning is Component {
                    self.named(placing, start, written).unwrap_or(placing)
                } else {
                    placing
                };
                let keyed = self.props(opened, element.attributes@, plan);
                let told = self.text(keyed, element.children@, plan);
                self.lemma_props_advances(opened, element.attributes@, plan);
                self.lemma_advances_on(placing, opened, keyed);
                self.lemma_text_advances(keyed, element.children@, plan);
                self.lemma_advances_on(placing, keyed, told);
                self.lemma_items_advances(told, element.children@, plan.consumes_expressions);
                self.lemma_advances_on(
                    placing,
                    told,
                    self.items(told, element.children@, plan.consumes_expressions),
                );
            },
            Markup::Fragment(fragment) => {
                self.lemma_items_advances(placing, fragment.children@, false);
            },
        }
    }

    pub proof fn lemma_props_advances(self, placing: Placing, props: Seq<Prop>, plan: Plan)
        requires
            text::bytes(self.output).len() <= usize::MAX,
        ensures
            self.advances(placing, self.props(placing, props, plan)),
        decreases props, 0int,
    {
        if props.len() > 0 {
            let before = self.props(placing, props.drop_last(), plan);
            self.lemma_props_advances(placing, props.drop_last(), plan);
            self.lemma_prop_advances(before, props.last(), plan);
            self.lemma_advances_on(placing, before, self.prop(before, props.last(), plan));
        }
    }

    pub proof fn lemma_prop_advances(self, placing: Placing, prop: Prop, plan: Plan)
        requires
            text::bytes(self.output).len() <= usize::MAX,
        ensures
            self.advances(placing, self.prop(placing, prop, plan)),
        decreases prop, 0int,
    {
        match prop {
            Prop::Spread { hole, .. } => {
                self.lemma_hole_advances(placing, hole);
            },
            Prop::Named { name, key, value, span } => if let Some(key) = key {
                self.lemma_keyed_advances(placing, name@, key@, span.start as int);
                self.lemma_anchored_advances(placing, key@ + " = true"@);
                if let Some(after) = self.keyed(placing, name@, key@, span.start as int) {
                    match value {
                        PropValue::Expression(hole) => {
                            self.lemma_hole_advances(after, hole);
                            self.lemma_advances_on(placing, after, self.hole(after, hole));
                        },
                        PropValue::StringLiteral(literal) => {
                            let length = text::bytes(literal@).len() as int;
                            let start = if length <= span.end {
                                span.end - length
                            } else {
                                0
                            };
                            self.lemma_verbatim_advances(after, start, length);
                            self.lemma_advances_on(
                                placing,
                                after,
                                self.verbatim(after, start, length).unwrap_or(after),
                            );
                        },
                        PropValue::Boolean => {
                            self.lemma_anchored_advances(after, "true"@);
                            self.lemma_advances_on(
                                placing,
                                after,
                                self.anchored(after, "true"@).unwrap_or(after),
                            );
                        },
                    }
                }
            },
        }
    }

    pub proof fn lemma_text_advances(self, placing: Placing, items: Seq<Item>, plan: Plan)
        requires
            text::bytes(self.output).len() <= usize::MAX,
        ensures
            self.advances(placing, self.text(placing, items, plan)),
        decreases items, 1int,
    {
        self.lemma_anchored_advances(placing, "Text = "@);
        if let Some(after) = self.anchored(placing, "Text = "@) {
            self.lemma_lone_advances(after, items);
            self.lemma_parts_advances(after, items);
            self.lemma_advances_on(placing, after, self.lone(after, items));
            self.lemma_advances_on(placing, after, self.parts(after, items));
        }
    }

    pub proof fn lemma_lone_advances(self, placing: Placing, items: Seq<Item>)
        requires
            text::bytes(self.output).len() <= usize::MAX,
        ensures
            self.advances(placing, self.lone(placing, items)),
        decreases items, 0int,
    {
        if items.len() > 0 {
            let before = self.lone(placing, items.drop_last());
            self.lemma_lone_advances(placing, items.drop_last());
            if let Item::Expression { hole, .. } = items.last() {
                self.lemma_hole_advances(before, hole);
                self.lemma_advances_on(placing, before, self.hole(before, hole));
            }
        }
    }

    pub proof fn lemma_parts_advances(self, placing: Placing, items: Seq<Item>)
        requires
            text::bytes(self.output).len() <= usize::MAX,
        ensures
            self.advances(placing, self.parts(placing, items)),
        decreases items, 0int,
    {
        if items.len() > 0 {
            let before = self.parts(placing, items.drop_last());
            self.lemma_parts_advances(placing, items.drop_last());
            if let Item::Expression { hole, .. } = items.last() {
                let needle = "__luaux_read"@ + "("@;
                self.lemma_anchored_advances(before, needle);
                if let Some(after) = self.anchored(before, needle) {
                    self.lemma_advances_on(placing, before, after);
                    self.lemma_hole_advances(after, hole);
                    self.lemma_advances_on(placing, after, self.hole(after, hole));
                }
            }
        }
    }

    pub proof fn lemma_items_advances(self, placing: Placing, items: Seq<Item>, consumed: bool)
        requires
            text::bytes(self.output).len() <= usize::MAX,
        ensures
            self.advances(placing, self.items(placing, items, consumed)),
        decreases items, 0int,
    {
        if items.len() > 0 {
            let before = self.items(placing, items.drop_last(), consumed);
            self.lemma_items_advances(placing, items.drop_last(), consumed);
            match items.last() {
                Item::Node(node) => {
                    self.lemma_node_advances(before, node);
                    self.lemma_advances_on(placing, before, self.node(before, node));
                },
                Item::Expression { hole, .. } => {
                    self.lemma_hole_advances(before, hole);
                    self.lemma_advances_on(placing, before, self.hole(before, hole));
                },
                _ => {},
            }
        }
    }
}

/// Placing a node only ever moves forward through the output and never looks
/// past the end of its region, whatever the node holds.
pub proof fn law_a_region_is_placed_forward_and_within_its_end(
    site: Site,
    placing: Placing,
    node: Markup,
)
    requires
        text::bytes(site.output).len() <= usize::MAX,
    ensures
        site.advances(placing, site.node(placing, node)),
{
    site.lemma_node_advances(placing, node);
}

/// A text that stands at two places, neither of them where the output has come
/// to, is not placed: picking between two is guessing.
pub proof fn law_picking_between_two_is_refused(
    window: Seq<u8>,
    needle: Seq<u8>,
    least: int,
    a: int,
    b: int,
)
    requires
        text::occurs(window, needle, a),
        text::occurs(window, needle, b),
        0 < a < b,
        !text::occurs(window, needle, 0),
    ensures
        spot(window, needle, least) is None,
{
    text::lemma_found(window, needle, 0);
    if let Some(at) = text::found(window, needle, 0) {
        text::lemma_found(window, needle, at + 1);
    }
}

/// A file without markup that comes out as it went in maps every byte to itself,
/// as long as no preamble is taken to stand in it.
pub proof fn law_untouched_source_maps_identically(
    source: Seq<char>,
    config: Config,
    runs: Seq<Run>,
    offset: int,
)
    requires
        text::bytes(source).len() <= usize::MAX,
        mapped_by(source, source, config, runs),
        regions::regions_of(source).len() == 0,
        preamble_of(
            source,
            source,
            resolving::names_of(source),
        ) is None,
        0 <= offset < text::bytes(source).len(),
    ensures
        sourcemap::mapped(runs, Side::Source, offset) == Some(offset),
{
    let (found, split) = choose|found: Seq<Region>, split: Option<(usize, usize)>|
        #![trigger runs_of(source, source, found, split)]
        {
            &&& prepared(source, config, found)
            &&& same_split(
                split,
                preamble_of(
                    source,
                    source,
                    resolving::names_of(source),
                ),
            )
            &&& runs == runs_of(source, source, found, split)
        };
    let whole = run_at(0, 0, text::bytes(source).len() as int);
    assert(found.len() == 0 && split is None);
    text::lemma_boundary_ends(source);
    assert(whole.verbatim(source, source));
    assert(runs =~= seq![whole]);
    assert(runs[0].holds(Side::Source, offset));
}

} // verus!
