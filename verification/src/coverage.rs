//! What a map covers.
//!
//! [`crate::map_builder`] never records a run that is not verbatim, so what it
//! could get wrong is only how much it records. Here is what it owes: text that
//! stands where the compiler is known to put it is in a run, and stays in one.

use vstd::prelude::*;
use vstd::string::*;

use crate::classes;
use crate::line_index;
use crate::map_builder::{self, Placing, Plan, Site, MIN_SEARCH};
use crate::regions::Region;
use crate::sourcemap::{self, Run, Side};
use crate::syntax::{self, ElementNode, Hole, Item, Markup, Meaning, Prop, PropValue};
use crate::text;
use crate::tree;

verus! {

/// Whether a stretch of source goes, byte for byte, to the output from `at` on.
pub open spec fn covered(runs: Seq<Run>, start: int, end: int, at: int) -> bool {
    forall|offset: int|
        start <= offset < end ==> #[trigger] sourcemap::mapped(runs, Side::Source, offset) == Some(
            at + (offset - start),
        )
}

/// Whether source from an offset on is still to be placed: everything recorded so
/// far lies before it, and before the cursor.
pub open spec fn ahead(site: Site, placing: Placing, start: int) -> bool {
    &&& site.open(placing)
    &&& map_builder::in_turn(placing.runs)
    &&& placing.runs.len() > 0 ==> placing.runs.last().end(Side::Source) <= start
        && placing.runs.last().end(Side::Output) <= placing.cursor
    &&& text::bytes(site.source).len() <= usize::MAX
    &&& text::bytes(site.output).len() <= usize::MAX
}

/// Whether a stretch of source stands `at` bytes into the output left to search.
pub open spec fn stands_at(site: Site, placing: Placing, start: int, end: int, at: int) -> bool {
    &&& start < end
    &&& text::cuttable(site.source, start, end)
    &&& text::occurs(
        site.window(placing),
        text::bytes(site.source).subrange(start, end),
        at,
    )
}

/// Whether it stands there for certain: at the cursor, or at its only place, if
/// it is three bytes or longer.
pub open spec fn certain(site: Site, placing: Placing, start: int, end: int, at: int) -> bool {
    &&& stands_at(site, placing, start, end, at)
    &&& at == 0 || end - start >= 3 && forall|other: int|
        other != at ==> !#[trigger] text::occurs(
            site.window(placing),
            text::bytes(site.source).subrange(start, end),
            other,
        )
}

/// How far into the output left to search the first of some generated text ends.
pub open spec fn past(site: Site, placing: Placing, anchor: Seq<char>) -> Option<int> {
    match text::found(site.window(placing), text::bytes(anchor), 0) {
        Some(at) => Some(at + text::bytes(anchor).len()),
        None => None,
    }
}

/// Whether all that was recorded is still recorded.
pub open spec fn extends(before: Seq<Run>, after: Seq<Run>) -> bool {
    &&& before.len() <= after.len()
    &&& forall|i: int| 0 <= i < before.len() ==> #[trigger] after[i] == before[i]
    &&& map_builder::in_turn(before) ==> map_builder::in_turn(after)
}

/// At most one run holds an offset.
proof fn lemma_held(runs: Seq<Run>, offset: int, i: int)
    requires
        map_builder::in_turn(runs),
        0 <= i < runs.len(),
        runs[i].holds(Side::Source, offset),
    ensures
        sourcemap::mapped(runs, Side::Source, offset) == Some(
            runs[i].across(Side::Source, offset),
        ),
{
    let j = choose|j: int| 0 <= j < runs.len() && (#[trigger] runs[j]).holds(Side::Source, offset);
    assert(i == j) by {
        assert(runs[i].holds(Side::Source, offset) && runs[j].holds(Side::Source, offset));
    }
}

/// What is covered stays covered.
proof fn lemma_kept(before: Seq<Run>, after: Seq<Run>, start: int, end: int, at: int)
    requires
        extends(before, after),
        map_builder::in_turn(before),
        covered(before, start, end, at),
    ensures
        covered(after, start, end, at),
{
    assert forall|offset: int| start <= offset < end implies #[trigger] sourcemap::mapped(
        after,
        Side::Source,
        offset,
    ) == Some(at + (offset - start)) by {
        assert(sourcemap::mapped(before, Side::Source, offset) == Some(at + (offset - start)));
        let i = choose|i: int|
            0 <= i < before.len() && (#[trigger] before[i]).holds(Side::Source, offset);
        lemma_held(before, offset, i);
        assert(after[i] == before[i]);
        lemma_held(after, offset, i);
    }
}

/// A run that is the last covers its source.
proof fn lemma_pushed(runs: Seq<Run>, run: Run)
    requires
        map_builder::in_turn(runs.push(run)),
    ensures
        covered(runs.push(run), run.source as int, run.end(Side::Source), run.output as int),
{
    let all = runs.push(run);
    assert forall|offset: int|
        run.source <= offset < run.end(Side::Source) implies #[trigger] sourcemap::mapped(
        all,
        Side::Source,
        offset,
    ) == Some(run.output + (offset - run.source)) by {
        assert(all[runs.len() as int].holds(Side::Source, offset));
        lemma_held(all, offset, runs.len() as int);
    }
}

/// A stretch of source that stands in the window stands in the output.
proof fn lemma_in_output(site: Site, placing: Placing, start: int, end: int, at: int)
    requires
        site.open(placing),
        stands_at(site, placing, start, end, at),
    ensures
        text::cuttable(site.output, placing.cursor + at, placing.cursor + at + (end - start)),
        placing.cursor + at + (end - start) <= site.limit <= text::bytes(site.output).len(),
        text::bytes(site.output).subrange(
            placing.cursor + at,
            placing.cursor + at + (end - start),
        ) == text::bytes(site.source).subrange(start, end),
{
    let piece = text::cut(site.source, start, end);
    text::lemma_cut(site.source, start, end);
    text::lemma_boundary_range(site.output, site.limit);
    let (from, to) = (placing.cursor + at, placing.cursor + at + (end - start));
    assert(site.window(placing).subrange(at, at + (end - start)) =~= text::bytes(
        site.output,
    ).subrange(from, to));
    assert(text::occurs(text::bytes(site.output), text::bytes(piece), from));
    if piece.len() == 0 {
        assert(piece =~= Seq::empty());
        text::lemma_bytes_concat(piece, piece);
        assert(piece + piece =~= piece);
    }
    text::lemma_occurs_boundaries(site.output, piece, from);
}

/// Text that stands for certain is recorded, and the cursor moves past it.
proof fn lemma_recorded(site: Site, placing: Placing, start: int, end: int, at: int)
    requires
        ahead(site, placing, start),
        certain(site, placing, start, end, at),
    ensures
        site.verbatim(placing, start, end - start) matches Some(after) && covered(
            after.runs,
            start,
            end,
            placing.cursor + at,
        ) && after.cursor == placing.cursor + at + (end - start) && ahead(site, after, end),
{
    let needle = text::bytes(site.source).subrange(start, end);
    let window = site.window(placing);
    lemma_in_output(site, placing, start, end, at);
    text::lemma_boundary_range(site.source, end);
    assert(map_builder::spot(window, needle, MIN_SEARCH as int) == Some(at)) by {
        if at != 0 {
            text::lemma_found(window, needle, 0);
            text::lemma_found(window, needle, at + 1);
            assert(!text::occurs(window, needle, 0));
        }
    }
    let run = map_builder::run_at(start, placing.cursor + at, end - start);
    assert(site.takes(placing.runs, run));
    site.lemma_verbatim_advances(placing, start, end - start);
    lemma_pushed(placing.runs, run);
}

/// Stepping over generated text leads to what stands right after it.
proof fn lemma_stepped(site: Site, placing: Placing, anchor: Seq<char>, start: int)
    requires
        ahead(site, placing, start),
        anchor.len() > 0,
        past(site, placing, anchor) is Some,
    ensures
        site.anchored(placing, anchor) == Some(
            Placing {
                runs: placing.runs,
                cursor: placing.cursor + past(site, placing, anchor)->Some_0,
            },
        ),
        ahead(site, site.anchored(placing, anchor)->Some_0, start),
        forall|from: int, to: int, at: int|
            #![trigger stands_at(site, placing, from, to, at)]
            at >= past(site, placing, anchor)->Some_0 && stands_at(site, placing, from, to, at)
                ==> stands_at(
                site,
                site.anchored(placing, anchor)->Some_0,
                from,
                to,
                at - past(site, placing, anchor)->Some_0,
            ),
{
    let window = site.window(placing);
    let b = text::bytes(anchor);
    text::lemma_found(window, b, 0);
    let at = text::found(window, b, 0)->Some_0;
    let n = past(site, placing, anchor)->Some_0;
    let after = site.anchored(placing, anchor)->Some_0;
    text::lemma_boundary_range(site.output, site.limit);
    assert(window.subrange(at, n) =~= text::bytes(site.output).subrange(
        placing.cursor + at,
        placing.cursor + n,
    ));
    assert(text::occurs(text::bytes(site.output), b, placing.cursor + at));
    text::lemma_occurs_boundaries(site.output, anchor, placing.cursor + at);
    assert forall|from: int, to: int, k: int|
        #![trigger stands_at(site, placing, from, to, k)]
        k >= n && stands_at(site, placing, from, to, k) implies stands_at(
        site,
        after,
        from,
        to,
        k - n,
    ) by {
        let needle = text::bytes(site.source).subrange(from, to);
        assert(site.window(after).subrange(k - n, k - n + needle.len()) =~= window.subrange(
            k,
            k + needle.len(),
        ));
    }
}

/// Whether placing has come right past a stretch of source: the cursor is at its
/// end in the output, and what follows it in the source is still to be placed.
pub open spec fn past_it(site: Site, after: Placing, end: int, at: int) -> bool {
    after.cursor == at && ahead(site, after, end)
}

/// A captured expression without LuauX in it is in a run wherever it stands for
/// certain, and placing goes on right past it.
pub proof fn law_an_expression_is_mapped(site: Site, placing: Placing, hole: Hole, at: int)
    requires
        hole.nested@.len() == 0,
        ahead(site, placing, hole.start as int),
        certain(site, placing, hole.start as int, hole.end as int, at),
    ensures
        covered(
            site.hole(placing, Some(hole)).runs,
            hole.start as int,
            hole.end as int,
            placing.cursor + at,
        ),
        past_it(
            site,
            site.hole(placing, Some(hole)),
            hole.end as int,
            placing.cursor + at + (hole.end - hole.start),
        ),
{
    lemma_recorded(site, placing, hole.start as int, hole.end as int, at);
}

/// What one placing has covered, a later one has too.
proof fn lemma_later(site: Site, a: Placing, b: Placing, start: int, end: int, at: int)
    requires
        site.advances(a, b),
        map_builder::in_turn(a.runs),
        covered(a.runs, start, end, at),
    ensures
        covered(b.runs, start, end, at),
{
    lemma_kept(a.runs, b.runs, start, end, at);
}

/// How many of some children are text or expressions, where only one is.
proof fn lemma_one_part(items: Seq<Item>, k: int)
    requires
        0 <= k < items.len(),
        items[k] is Expression,
        forall|j: int|
            0 <= j < items.len() && j != k ==> !(#[trigger] items[j] is Text) && !(items[j]
                is Expression),
    ensures
        map_builder::part_count(items) == 1,
    decreases items.len(),
{
    let rest = items.drop_last();
    assert forall|j: int| 0 <= j < rest.len() && j != k implies !(#[trigger] rest[j] is Text) && !(
    rest[j] is Expression) by {
        assert(rest[j] == items[j]);
    }
    if k == items.len() - 1 {
        lemma_no_parts(rest);
    } else {
        assert(rest[k] == items[k]);
        lemma_one_part(rest, k);
        assert(items.last() == items[items.len() - 1]);
    }
}

proof fn lemma_no_parts(items: Seq<Item>)
    requires
        forall|j: int|
            0 <= j < items.len() ==> !(#[trigger] items[j] is Text) && !(items[j] is Expression),
    ensures
        map_builder::part_count(items) == 0,
    decreases items.len(),
{
    if items.len() > 0 {
        let rest = items.drop_last();
        assert forall|j: int| 0 <= j < rest.len() implies !(#[trigger] rest[j] is Text) && !(rest[j]
            is Expression) by {
            assert(rest[j] == items[j]);
        }
        lemma_no_parts(rest);
        assert(items.last() == items[items.len() - 1]);
    }
}

proof fn lemma_part_bounds(items: Seq<Item>)
    ensures
        0 <= map_builder::part_count(items) <= items.len(),
    decreases items.len(),
{
    if items.len() > 0 {
        lemma_part_bounds(items.drop_last());
    }
}

/// Two of them make at least two.
proof fn lemma_two_parts(items: Seq<Item>, j: int, k: int)
    requires
        0 <= j < k < items.len(),
        items[j] is Text || items[j] is Expression,
        items[k] is Text || items[k] is Expression,
    ensures
        map_builder::part_count(items) >= 2,
    decreases items.len(),
{
    let rest = items.drop_last();
    assert(rest[j] == items[j]);
    if k < items.len() - 1 {
        assert(rest[k] == items[k]);
        lemma_two_parts(rest, j, k);
    } else {
        lemma_a_part(rest, j);
    }
}

proof fn lemma_a_part(items: Seq<Item>, j: int)
    requires
        0 <= j < items.len(),
        items[j] is Text || items[j] is Expression,
    ensures
        map_builder::part_count(items) >= 1,
    decreases items.len(),
{
    let rest = items.drop_last();
    lemma_part_bounds(rest);
    if j < items.len() - 1 {
        assert(rest[j] == items[j]);
        lemma_a_part(rest, j);
    }
}

/// Placing a lone expression is placing that expression.
proof fn lemma_lone(site: Site, placing: Placing, items: Seq<Item>, k: int)
    requires
        0 <= k < items.len(),
        items[k] is Expression,
        forall|j: int| 0 <= j < items.len() && j != k ==> !(#[trigger] items[j] is Expression),
    ensures
        site.lone(placing, items) == site.hole(placing, items[k]->Expression_hole),
    decreases items.len(),
{
    let rest = items.drop_last();
    assert forall|j: int| 0 <= j < rest.len() && j != k implies !(#[trigger] rest[j]
        is Expression) by {
        assert(rest[j] == items[j]);
    }
    if k == items.len() - 1 {
        lemma_none_alone(site, placing, rest);
    } else {
        assert(rest[k] == items[k]);
        lemma_lone(site, placing, rest, k);
        assert(items.last() == items[items.len() - 1]);
    }
}

proof fn lemma_none_alone(site: Site, placing: Placing, items: Seq<Item>)
    requires
        forall|j: int| 0 <= j < items.len() ==> !(#[trigger] items[j] is Expression),
    ensures
        site.lone(placing, items) == placing,
    decreases items.len(),
{
    if items.len() > 0 {
        let rest = items.drop_last();
        assert forall|j: int| 0 <= j < rest.len() implies !(#[trigger] rest[j] is Expression) by {
            assert(rest[j] == items[j]);
        }
        lemma_none_alone(site, placing, rest);
        assert(items.last() == items[items.len() - 1]);
    }
}

/// Whether an element is of a class with a `Text` property.
pub open spec fn takes_text(element: ElementNode) -> bool {
    match element.meaning {
        Meaning::Intrinsic(class) => classes::properties_of(class@).contains("Text"@),
        _ => false,
    }
}

/// Where the attributes of an element begin to be placed: past its name, if that
/// is a call.
pub open spec fn begun(site: Site, placing: Placing, element: ElementNode) -> Placing {
    if element.meaning is Component {
        let written = element.name.written();
        let start = tree::name_span(site.source, element.span.start + 1, written).0;
        match site.named(placing, start, written) {
            Some(after) => after,
            None => placing,
        }
    } else {
        placing
    }
}

/// How far an element has come once its attributes are placed.
pub open spec fn dressed(site: Site, placing: Placing, element: ElementNode) -> Placing {
    site.props(begun(site, placing, element), element.attributes@, map_builder::plan_of(element))
}

/// An element's placing goes on from its attributes' through its text's to its
/// children's, and loses nothing on the way.
proof fn lemma_element(site: Site, placing: Placing, element: ElementNode)
    requires
        text::bytes(site.output).len() <= usize::MAX,
    ensures
        ({
            let plan = map_builder::plan_of(element);
            let ready = begun(site, placing, element);
            let keyed = dressed(site, placing, element);
            let told = site.text(keyed, element.children@, plan);
            let done = site.node(placing, Markup::Element(element));
            &&& done == site.items(told, element.children@, plan.consumes_expressions)
            &&& site.advances(placing, ready)
            &&& site.advances(ready, keyed)
            &&& site.advances(keyed, told)
            &&& site.advances(told, done)
            &&& site.advances(keyed, done)
            &&& site.advances(ready, done)
        }),
{
    let plan = map_builder::plan_of(element);
    let written = element.name.written();
    let start = tree::name_span(site.source, element.span.start + 1, written).0;
    let ready = begun(site, placing, element);
    let keyed = dressed(site, placing, element);
    let told = site.text(keyed, element.children@, plan);
    let done = site.node(placing, Markup::Element(element));
    site.lemma_named_advances(placing, start, written);
    site.lemma_props_advances(ready, element.attributes@, plan);
    site.lemma_text_advances(keyed, element.children@, plan);
    site.lemma_items_advances(told, element.children@, plan.consumes_expressions);
    site.lemma_advances_on(keyed, told, done);
    site.lemma_advances_on(ready, keyed, done);
}

/// The only text or expression between the tags of an element with a `Text`
/// property is in a run, if it is an expression and the output has it right after
/// `Text = `.
pub proof fn law_a_lone_expression_is_mapped(
    site: Site,
    placing: Placing,
    element: ElementNode,
    k: int,
    hole: Hole,
)
    requires
        takes_text(element),
        0 <= k < element.children@.len(),
        element.children@[k] matches Item::Expression { hole: Some(inside), .. } && inside == hole,
        forall|j: int|
            0 <= j < element.children@.len() && j != k ==> #[trigger] element.children@[j]
                is Comment,
        hole.nested@.len() == 0,
        ({
            let reached = dressed(site, placing, element);
            &&& ahead(site, reached, hole.start as int)
            &&& past(site, reached, "Text = "@) matches Some(n) && stands_at(
                site,
                reached,
                hole.start as int,
                hole.end as int,
                n,
            )
        }),
    ensures
        covered(
            site.node(placing, Markup::Element(element)).runs,
            hole.start as int,
            hole.end as int,
            dressed(site, placing, element).cursor + past(
                site,
                dressed(site, placing, element),
                "Text = "@,
            )->Some_0,
        ),
        past_it(
            site,
            peopled(site, placing, Markup::Element(element)),
            hole.end as int,
            dressed(site, placing, element).cursor + past(
                site,
                dressed(site, placing, element),
                "Text = "@,
            )->Some_0 + (hole.end - hole.start),
        ),
{
    let items = element.children@;
    let plan = map_builder::plan_of(element);
    let reached = dressed(site, placing, element);
    let n = past(site, reached, "Text = "@)->Some_0;
    lemma_one_part(items, k);
    assert(items[k] is Expression);
    assert(plan.emits_text && plan.consumes_expressions && plan.parts == 1);
    reveal_strlit("Text = ");
    lemma_stepped(site, reached, "Text = "@, hole.start as int);
    let after = site.anchored(reached, "Text = "@)->Some_0;
    lemma_lone(site, after, items, k);
    let told = site.text(reached, items, plan);
    assert(told == site.hole(after, Some(hole)));
    law_an_expression_is_mapped(site, after, hole, 0);
    lemma_element(site, placing, element);
    lemma_later(
        site,
        told,
        site.node(placing, Markup::Element(element)),
        hole.start as int,
        hole.end as int,
        reached.cursor + n,
    );
}

/// Placing more children goes on from placing the first of them.
proof fn lemma_parts_on(site: Site, placing: Placing, items: Seq<Item>, k: int)
    requires
        text::bytes(site.output).len() <= usize::MAX,
        0 <= k <= items.len(),
    ensures
        site.advances(site.parts(placing, items.take(k)), site.parts(placing, items)),
    decreases items.len() - k,
{
    if k == items.len() {
        assert(items.take(k) =~= items);
    } else {
        let before = items.take(k);
        let more = items.take(k + 1);
        assert(more.drop_last() =~= before);
        assert(more.last() == items[k]);
        let a = site.parts(placing, before);
        let b = site.parts(placing, more);
        if let Item::Expression { hole, .. } = items[k] {
            let needle = "__luaux_read"@ + "("@;
            site.lemma_anchored_advances(a, needle);
            if let Some(after) = site.anchored(a, needle) {
                site.lemma_hole_advances(after, hole);
                site.lemma_advances_on(a, after, b);
            }
        }
        assert(site.advances(a, b));
        lemma_parts_on(site, placing, items, k + 1);
        site.lemma_advances_on(a, b, site.parts(placing, items));
    }
}

/// Where the children of an element with a `Text` property begin to be placed,
/// once the output has come to that property.
pub open spec fn telling(site: Site, placing: Placing, element: ElementNode) -> Placing {
    let reached = dressed(site, placing, element);
    Placing {
        runs: reached.runs,
        cursor: reached.cursor + past(site, reached, "Text = "@)->Some_0,
    }
}

/// An expression that shares the `Text` property of an element with other text is
/// in a run, if the output has it right after the call that reads it.
#[verifier::rlimit(40)]
pub proof fn law_a_mixed_expression_is_mapped(
    site: Site,
    placing: Placing,
    element: ElementNode,
    j: int,
    k: int,
    hole: Hole,
)
    requires
        takes_text(element),
        0 <= k < element.children@.len(),
        0 <= j < element.children@.len(),
        j != k,
        element.children@[j] is Text || element.children@[j] is Expression,
        element.children@[k] matches Item::Expression { hole: Some(inside), .. } && inside == hole,
        forall|i: int|
            0 <= i < element.children@.len() ==> !(#[trigger] element.children@[i] is Node),
        hole.nested@.len() == 0,
        site.open(dressed(site, placing, element)),
        past(site, dressed(site, placing, element), "Text = "@) is Some,
        ({
            let reached = site.parts(
                telling(site, placing, element),
                element.children@.take(k),
            );
            &&& ahead(site, reached, hole.start as int)
            &&& past(site, reached, "__luaux_read("@) matches Some(n) && stands_at(
                site,
                reached,
                hole.start as int,
                hole.end as int,
                n,
            )
        }),
    ensures
        ({
            let reached = site.parts(
                telling(site, placing, element),
                element.children@.take(k),
            );
            covered(
                site.node(placing, Markup::Element(element)).runs,
                hole.start as int,
                hole.end as int,
                reached.cursor + past(site, reached, "__luaux_read("@)->Some_0,
            ) && past_it(
                site,
                site.parts(telling(site, placing, element), element.children@.take(k + 1)),
                hole.end as int,
                reached.cursor + past(site, reached, "__luaux_read("@)->Some_0 + (hole.end
                    - hole.start),
            )
        }),
{
    let items = element.children@;
    let plan = map_builder::plan_of(element);
    let keyed = dressed(site, placing, element);
    let start = telling(site, placing, element);
    let reached = site.parts(start, items.take(k));
    let n = past(site, reached, "__luaux_read("@)->Some_0;
    if j < k {
        lemma_two_parts(items, j, k);
    } else {
        lemma_two_parts(items, k, j);
    }
    lemma_part_bounds(items);
    assert(element.children.len() == items.len());
    assert(items[k] is Expression);
    assert(plan.emits_text && plan.consumes_expressions && plan.parts != 1);
    reveal_strlit("__luaux_read");
    reveal_strlit("(");
    reveal_strlit("__luaux_read(");
    assert("__luaux_read"@ + "("@ =~= "__luaux_read("@);
    lemma_stepped(site, reached, "__luaux_read("@, hole.start as int);
    let after = site.anchored(reached, "__luaux_read("@)->Some_0;
    law_an_expression_is_mapped(site, after, hole, 0);
    let more = items.take(k + 1);
    assert(more.drop_last() =~= items.take(k));
    assert(more.last() == items[k]);
    let b = site.parts(start, more);
    assert(b == site.hole(after, Some(hole)));
    site.lemma_hole_advances(after, Some(hole));
    lemma_parts_on(site, start, items, k + 1);
    lemma_later(
        site,
        b,
        site.parts(start, items),
        hole.start as int,
        hole.end as int,
        reached.cursor + n,
    );
    let told = site.text(keyed, items, plan);
    assert(told == site.parts(start, items));
    lemma_element(site, placing, element);
    lemma_later(
        site,
        told,
        site.node(placing, Markup::Element(element)),
        hole.start as int,
        hole.end as int,
        reached.cursor + n,
    );
}

/// Placing more attributes goes on from placing the first of them.
proof fn lemma_props_on(site: Site, placing: Placing, props: Seq<Prop>, plan: Plan, k: int)
    requires
        text::bytes(site.output).len() <= usize::MAX,
        0 <= k <= props.len(),
    ensures
        site.advances(site.props(placing, props.take(k), plan), site.props(placing, props, plan)),
    decreases props.len() - k,
{
    if k == props.len() {
        assert(props.take(k) =~= props);
    } else {
        let more = props.take(k + 1);
        assert(more.drop_last() =~= props.take(k));
        assert(more.last() == props[k]);
        let a = site.props(placing, props.take(k), plan);
        let b = site.props(placing, more, plan);
        site.lemma_prop_advances(a, props[k], plan);
        lemma_props_on(site, placing, props, plan, k + 1);
        site.lemma_advances_on(a, b, site.props(placing, props, plan));
    }
}

/// An attribute's name, as it is written and as it is emitted.
pub open spec fn names_of(prop: Prop) -> Option<(Seq<char>, Seq<char>)> {
    match prop {
        Prop::Named { name, key: Some(key), .. } => Some((name@, key@)),
        _ => None,
    }
}

/// Where an attribute's value stands in the source, if it is one that is copied.
pub open spec fn value_of(prop: Prop) -> Option<(int, int)> {
    match prop {
        Prop::Named { value: PropValue::Expression(Some(hole)), .. } => if hole.nested@.len()
            == 0 {
            Some((hole.start as int, hole.end as int))
        } else {
            None
        },
        Prop::Named { value: PropValue::StringLiteral(literal), span, .. } => Some(
            (span.end - text::bytes(literal@).len(), span.end as int),
        ),
        _ => None,
    }
}

/// Whether an element's text takes the place of an attribute.
pub open spec fn replaced(element: ElementNode, name: Seq<char>) -> bool {
    &&& name == "Text"@
    &&& takes_text(element)
    &&& exists|i: int|
        0 <= i < element.children@.len() && (#[trigger] element.children@[i] is Text
            || element.children@[i] is Expression)
}

/// How far an element has come once some of its attributes are placed.
pub open spec fn dressed_to(site: Site, placing: Placing, element: ElementNode, k: int) -> Placing {
    site.props(
        begun(site, placing, element),
        element.attributes@.take(k),
        map_builder::plan_of(element),
    )
}

/// Stepping over `Key = ` leads to the value, and records the key if it is the
/// author's own.
proof fn lemma_keyed(site: Site, placing: Placing, name: Seq<char>, key: Seq<char>, start: usize)
    requires
        ahead(site, placing, start as int),
        past(site, placing, key + " = "@) is Some,
        start + text::bytes(name).len() <= text::bytes(site.source).len(),
    ensures
        ({
            let n = past(site, placing, key + " = "@)->Some_0;
            match site.keyed(placing, name, key, start as int) {
                Some(after) => {
                    &&& after.cursor == placing.cursor + n
                    &&& ahead(site, after, start + text::bytes(name).len())
                    &&& forall|from: int, to: int|
                        #![trigger stands_at(site, placing, from, to, n)]
                        stands_at(site, placing, from, to, n) ==> stands_at(
                            site,
                            after,
                            from,
                            to,
                            0,
                        )
                    &&& name == key && name.len() > 0 && text::occurs(
                        text::bytes(site.source),
                        text::bytes(name),
                        start as int,
                    ) ==> covered(
                        after.runs,
                        start as int,
                        start + text::bytes(name).len(),
                        placing.cursor + n - text::bytes(key + " = "@).len(),
                    )
                },
                None => false,
            }
        }),
{
    let anchor = key + " = "@;
    reveal_strlit(" = ");
    assert(anchor.len() > 0);
    lemma_stepped(site, placing, anchor, start as int);
    let n = past(site, placing, anchor)->Some_0;
    let at = n - text::bytes(anchor).len();
    let window = site.window(placing);
    text::lemma_found(window, text::bytes(anchor), 0);
    text::lemma_bytes_concat(key, " = "@);
    let after = site.keyed(placing, name, key, start as int)->Some_0;
    site.lemma_keyed_advances(placing, name, key, start as int);
    let length = text::bytes(name).len() as int;
    let run = map_builder::run_at(start as int, placing.cursor + at, length);
    let stepped = site.anchored(placing, anchor)->Some_0;
    assert forall|from: int, to: int|
        #![trigger stands_at(site, placing, from, to, n)]
        stands_at(site, placing, from, to, n) implies stands_at(site, after, from, to, 0) by {
        assert(stands_at(site, stepped, from, to, n - n));
        assert(site.window(after) == site.window(stepped));
    }
    if name == key && name.len() > 0 && text::occurs(
        text::bytes(site.source),
        text::bytes(name),
        start as int,
    ) {
        let b = text::bytes(name);
        text::lemma_boundary_range(site.output, site.limit);
        text::lemma_occurs_boundaries(site.source, name, start as int);
        assert(window.subrange(at, at + length) =~= b) by {
            assert(window.subrange(at, n).subrange(0, length) =~= window.subrange(
                at,
                at + length,
            ));
            assert((b + text::bytes(" = "@)).subrange(0, length) =~= b);
        }
        assert(text::bytes(site.output).subrange(
            placing.cursor + at,
            placing.cursor + at + length,
        ) =~= window.subrange(at, at + length));
        assert(text::occurs(text::bytes(site.output), b, placing.cursor + at));
        text::lemma_occurs_boundaries(site.output, name, placing.cursor + at);
        vstd::utf8::encode_utf8_first_scalar(name);
        assert(length > 0);
        assert(site.takes(placing.runs, run));
        lemma_pushed(placing.runs, run);
    }
}

/// The value of an attribute is in a run, if the output has it right after the
/// attribute's property and ` = `.
pub proof fn law_an_attribute_value_is_mapped(
    site: Site,
    placing: Placing,
    element: ElementNode,
    k: int,
    start: int,
    end: int,
)
    requires
        0 <= k < element.attributes@.len(),
        names_of(element.attributes@[k]) is Some,
        value_of(element.attributes@[k]) == Some((start, end)),
        !replaced(element, names_of(element.attributes@[k])->Some_0.0),
        ({
            let (name, key) = names_of(element.attributes@[k])->Some_0;
            let reached = dressed_to(site, placing, element, k);
            let from = element.attributes@[k].span().start;
            &&& ahead(site, reached, from as int)
            &&& from + text::bytes(name).len() <= start
            &&& past(site, reached, key + " = "@) matches Some(n) && stands_at(
                site,
                reached,
                start,
                end,
                n,
            )
        }),
    ensures
        ({
            let (name, key) = names_of(element.attributes@[k])->Some_0;
            let reached = dressed_to(site, placing, element, k);
            covered(
                site.node(placing, Markup::Element(element)).runs,
                start,
                end,
                reached.cursor + past(site, reached, key + " = "@)->Some_0,
            ) && past_it(
                site,
                dressed_to(site, placing, element, k + 1),
                end,
                reached.cursor + past(site, reached, key + " = "@)->Some_0 + (end - start),
            )
        }),
{
    let plan = map_builder::plan_of(element);
    let props = element.attributes@;
    let (name, key) = names_of(props[k])->Some_0;
    let reached = dressed_to(site, placing, element, k);
    let n = past(site, reached, key + " = "@)->Some_0;
    let from = props[k].span().start;
    assert(!(plan.emits_text && name == "Text"@));
    lemma_keyed(site, reached, name, key, from);
    let after = site.keyed(reached, name, key, from as int)->Some_0;
    lemma_recorded(site, after, start, end, 0);
    let b = site.prop(reached, props[k], plan);
    assert(covered(b.runs, start, end, reached.cursor + n));
    assert(props.take(k + 1).drop_last() =~= props.take(k));
    assert(props.take(k + 1).last() == props[k]);
    lemma_dressed(site, placing, element, k, start, end, reached.cursor + n);
}

/// What an attribute places, its element keeps.
proof fn lemma_dressed(
    site: Site,
    placing: Placing,
    element: ElementNode,
    k: int,
    start: int,
    end: int,
    at: int,
)
    requires
        text::bytes(site.output).len() <= usize::MAX,
        0 <= k < element.attributes@.len(),
        map_builder::in_turn(dressed_to(site, placing, element, k).runs),
        covered(
            site.prop(
                dressed_to(site, placing, element, k),
                element.attributes@[k],
                map_builder::plan_of(element),
            ).runs,
            start,
            end,
            at,
        ),
    ensures
        covered(site.node(placing, Markup::Element(element)).runs, start, end, at),
{
    let plan = map_builder::plan_of(element);
    let props = element.attributes@;
    let ready = begun(site, placing, element);
    let more = props.take(k + 1);
    assert(more.drop_last() =~= props.take(k));
    assert(more.last() == props[k]);
    let a = dressed_to(site, placing, element, k);
    let b = site.props(ready, more, plan);
    site.lemma_prop_advances(a, props[k], plan);
    lemma_props_on(site, ready, props, plan, k + 1);
    let keyed = dressed(site, placing, element);
    lemma_later(site, b, keyed, start, end, at);
    lemma_element(site, placing, element);
    lemma_later(site, keyed, site.node(placing, Markup::Element(element)), start, end, at);
}

/// The name of an attribute that no alias renamed is in a run, wherever the
/// output has it before its ` = `.
pub proof fn law_an_attribute_name_is_mapped(
    site: Site,
    placing: Placing,
    element: ElementNode,
    k: int,
    name: Seq<char>,
)
    requires
        0 <= k < element.attributes@.len(),
        names_of(element.attributes@[k]) == Some((name, name)),
        name.len() > 0,
        !replaced(element, name),
        ({
            let reached = dressed_to(site, placing, element, k);
            let from = element.attributes@[k].span().start as int;
            &&& ahead(site, reached, from)
            &&& text::occurs(text::bytes(site.source), text::bytes(name), from)
            &&& past(site, reached, name + " = "@) is Some
        }),
    ensures
        ({
            let reached = dressed_to(site, placing, element, k);
            let from = element.attributes@[k].span().start as int;
            covered(
                site.node(placing, Markup::Element(element)).runs,
                from,
                from + text::bytes(name).len(),
                reached.cursor + past(site, reached, name + " = "@)->Some_0 - text::bytes(
                    name + " = "@,
                ).len(),
            )
        }),
{
    let plan = map_builder::plan_of(element);
    let prop = element.attributes@[k];
    let reached = dressed_to(site, placing, element, k);
    let from = prop.span().start;
    let (start, end) = (from as int, from + text::bytes(name).len());
    let at = reached.cursor + past(site, reached, name + " = "@)->Some_0 - text::bytes(
        name + " = "@,
    ).len();
    assert(!(plan.emits_text && name == "Text"@));
    lemma_keyed(site, reached, name, name, from);
    let after = site.keyed(reached, name, name, from as int)->Some_0;
    let b = site.prop(reached, prop, plan);
    assert(site.advances(after, b)) by {
        match prop {
            Prop::Named { value: PropValue::Expression(hole), .. } => {
                site.lemma_hole_advances(after, hole);
            },
            Prop::Named { value: PropValue::StringLiteral(literal), span, .. } => {
                let length = text::bytes(literal@).len() as int;
                site.lemma_verbatim_advances(
                    after,
                    if length <= span.end {
                        span.end - length
                    } else {
                        0
                    },
                    length,
                );
            },
            _ => {
                site.lemma_anchored_advances(after, "true"@);
            },
        }
    }
    lemma_later(site, after, b, start, end, at);
    lemma_dressed(site, placing, element, k, start, end, at);
}

/// An expression that is spread among the attributes is in a run wherever it
/// stands for certain.
pub proof fn law_a_spread_is_mapped(
    site: Site,
    placing: Placing,
    element: ElementNode,
    k: int,
    hole: Hole,
    at: int,
)
    requires
        0 <= k < element.attributes@.len(),
        element.attributes@[k] matches Prop::Spread { hole: Some(inside), .. } && inside == hole,
        hole.nested@.len() == 0,
        ahead(site, dressed_to(site, placing, element, k), hole.start as int),
        certain(
            site,
            dressed_to(site, placing, element, k),
            hole.start as int,
            hole.end as int,
            at,
        ),
    ensures
        covered(
            site.node(placing, Markup::Element(element)).runs,
            hole.start as int,
            hole.end as int,
            dressed_to(site, placing, element, k).cursor + at,
        ),
        past_it(
            site,
            dressed_to(site, placing, element, k + 1),
            hole.end as int,
            dressed_to(site, placing, element, k).cursor + at + (hole.end - hole.start),
        ),
{
    let reached = dressed_to(site, placing, element, k);
    assert(element.attributes@.take(k + 1).drop_last() =~= element.attributes@.take(k));
    assert(element.attributes@.take(k + 1).last() == element.attributes@[k]);
    law_an_expression_is_mapped(site, reached, hole, at);
    lemma_dressed(
        site,
        placing,
        element,
        k,
        hole.start as int,
        hole.end as int,
        reached.cursor + at,
    );
}

/// The name of a component is in a run, if the output has it as a call at the
/// cursor or at one place only.
#[verifier::rlimit(40)]
pub proof fn law_a_component_name_is_mapped(
    site: Site,
    placing: Placing,
    element: ElementNode,
    at: int,
)
    requires
        element.meaning is Component,
        element.name.written().len() > 0,
        syntax::placed(site.source, Markup::Element(element)),
        ahead(
            site,
            placing,
            syntax::past_blanks(text::bytes(site.source), element.span.start + 1),
        ),
        ({
            let call = text::bytes(element.name.written() + "("@);
            let window = site.window(placing);
            &&& text::occurs(window, call, at)
            &&& at == 0 || forall|other: int|
                other != at ==> !#[trigger] text::occurs(window, call, other)
        }),
    ensures
        ({
            let start = syntax::past_blanks(text::bytes(site.source), element.span.start + 1);
            covered(
                site.node(placing, Markup::Element(element)).runs,
                start,
                start + text::bytes(element.name.written()).len(),
                placing.cursor + at,
            ) && past_it(
                site,
                begun(site, placing, element),
                start + text::bytes(element.name.written()).len(),
                placing.cursor + at + text::bytes(element.name.written()).len(),
            )
        }),
{
    let name = element.name.written();
    let b = text::bytes(name);
    let length = b.len() as int;
    let start = syntax::past_blanks(text::bytes(site.source), element.span.start + 1);
    let call = text::bytes(name + "("@);
    let window = site.window(placing);
    text::lemma_bytes_concat(name, "("@);
    text::lemma_boundary_range(site.output, site.limit);
    assert(text::occurs(text::bytes(site.source), b, start)) by {
        tree::lemma_past_blanks(text::bytes(site.source), element.span.start + 1);
    }
    text::lemma_occurs_boundaries(site.source, name, start);
    text::lemma_cut(site.source, start, start + length);
    text::lemma_bytes_injective(text::cut(site.source, start, start + length), name);
    assert(map_builder::spot(window, call, 0) == Some(at)) by {
        if at != 0 {
            text::lemma_found(window, call, 0);
            text::lemma_found(window, call, at + 1);
            assert(!text::occurs(window, call, 0));
        }
    }
    assert(window.subrange(at, at + length) =~= b) by {
        assert(window.subrange(at, at + call.len()).subrange(0, length) =~= window.subrange(
            at,
            at + length,
        ));
        assert((b + text::bytes("("@)).subrange(0, length) =~= b);
    }
    let from = placing.cursor + at;
    assert(text::bytes(site.output).subrange(from, from + length) =~= window.subrange(
        at,
        at + length,
    ));
    assert(text::occurs(text::bytes(site.output), b, from));
    text::lemma_occurs_boundaries(site.output, name, from);
    vstd::utf8::encode_utf8_first_scalar(name);
    let run = map_builder::run_at(start, from, length);
    assert(site.takes(placing.runs, run));
    site.lemma_named_advances(placing, start, name);
    lemma_pushed(placing.runs, run);
    lemma_element(site, placing, element);
    lemma_later(
        site,
        begun(site, placing, element),
        site.node(placing, Markup::Element(element)),
        start,
        start + length,
        from,
    );
}

/// Placing more children goes on from placing the first of them.
proof fn lemma_items_on(site: Site, placing: Placing, items: Seq<Item>, consumed: bool, k: int)
    requires
        text::bytes(site.output).len() <= usize::MAX,
        0 <= k <= items.len(),
    ensures
        site.advances(
            site.items(placing, items.take(k), consumed),
            site.items(placing, items, consumed),
        ),
    decreases items.len() - k,
{
    if k == items.len() {
        assert(items.take(k) =~= items);
    } else {
        let more = items.take(k + 1);
        assert(more.drop_last() =~= items.take(k));
        assert(more.last() == items[k]);
        let a = site.items(placing, items.take(k), consumed);
        let b = site.items(placing, more, consumed);
        match items[k] {
            Item::Node(node) => {
                site.lemma_node_advances(a, node);
            },
            Item::Expression { hole, .. } => {
                site.lemma_hole_advances(a, hole);
            },
            _ => {},
        }
        lemma_items_on(site, placing, items, consumed, k + 1);
        site.lemma_advances_on(a, b, site.items(placing, items, consumed));
    }
}

/// The children of an element or a fragment.
pub open spec fn children_of(node: Markup) -> Seq<Item> {
    match node {
        Markup::Element(element) => element.children@,
        Markup::Fragment(fragment) => fragment.children@,
    }
}

/// Whether the expressions among a node's children become its text.
pub open spec fn tells(node: Markup) -> bool {
    match node {
        Markup::Element(element) => map_builder::plan_of(element).consumes_expressions,
        Markup::Fragment(_) => false,
    }
}

/// Where a node's children begin to be placed.
pub open spec fn peopled(site: Site, placing: Placing, node: Markup) -> Placing {
    match node {
        Markup::Element(element) => site.text(
            dressed(site, placing, element),
            element.children@,
            map_builder::plan_of(element),
        ),
        Markup::Fragment(_) => placing,
    }
}

/// How far a node has come once some of its children are placed.
pub open spec fn peopled_to(site: Site, placing: Placing, node: Markup, k: int) -> Placing {
    site.items(peopled(site, placing, node), children_of(node).take(k), tells(node))
}

/// What one of a node's children places, the node keeps.
proof fn lemma_peopled(
    site: Site,
    placing: Placing,
    node: Markup,
    k: int,
    start: int,
    end: int,
    at: int,
)
    requires
        text::bytes(site.output).len() <= usize::MAX,
        0 <= k < children_of(node).len(),
        map_builder::in_turn(peopled_to(site, placing, node, k + 1).runs),
        covered(peopled_to(site, placing, node, k + 1).runs, start, end, at),
    ensures
        covered(site.node(placing, node).runs, start, end, at),
{
    let items = children_of(node);
    lemma_items_on(site, peopled(site, placing, node), items, tells(node), k + 1);
    let done = site.items(peopled(site, placing, node), items, tells(node));
    lemma_later(site, peopled_to(site, placing, node, k + 1), done, start, end, at);
    if let Markup::Element(element) = node {
        lemma_element(site, placing, element);
    }
}

/// Whatever a child places is still there once its parent is placed.
pub proof fn law_a_child_keeps_its_runs(
    site: Site,
    placing: Placing,
    node: Markup,
    k: int,
    child: Markup,
    start: int,
    end: int,
    at: int,
)
    requires
        text::bytes(site.output).len() <= usize::MAX,
        0 <= k < children_of(node).len(),
        children_of(node)[k] == Item::Node(child),
        map_builder::in_turn(peopled_to(site, placing, node, k).runs),
        covered(
            site.node(peopled_to(site, placing, node, k), child).runs,
            start,
            end,
            at,
        ),
    ensures
        covered(site.node(placing, node).runs, start, end, at),
{
    let items = children_of(node);
    let more = items.take(k + 1);
    assert(more.drop_last() =~= items.take(k));
    assert(more.last() == items[k]);
    site.lemma_node_advances(peopled_to(site, placing, node, k), child);
    lemma_peopled(site, placing, node, k, start, end, at);
}

/// An expression among the children of a node that takes no text is in a run
/// wherever it stands for certain.
pub proof fn law_a_child_expression_is_mapped(
    site: Site,
    placing: Placing,
    node: Markup,
    k: int,
    hole: Hole,
    at: int,
)
    requires
        node matches Markup::Element(element) ==> !takes_text(element),
        0 <= k < children_of(node).len(),
        children_of(node)[k] matches Item::Expression { hole: Some(inside), .. } && inside == hole,
        hole.nested@.len() == 0,
        ahead(site, peopled_to(site, placing, node, k), hole.start as int),
        certain(
            site,
            peopled_to(site, placing, node, k),
            hole.start as int,
            hole.end as int,
            at,
        ),
    ensures
        covered(
            site.node(placing, node).runs,
            hole.start as int,
            hole.end as int,
            peopled_to(site, placing, node, k).cursor + at,
        ),
        past_it(
            site,
            peopled_to(site, placing, node, k + 1),
            hole.end as int,
            peopled_to(site, placing, node, k).cursor + at + (hole.end - hole.start),
        ),
{
    let items = children_of(node);
    let reached = peopled_to(site, placing, node, k);
    let more = items.take(k + 1);
    assert(more.drop_last() =~= items.take(k));
    assert(more.last() == items[k]);
    assert(!tells(node));
    law_an_expression_is_mapped(site, reached, hole, at);
    site.lemma_hole_advances(reached, Some(hole));
    lemma_peopled(
        site,
        placing,
        node,
        k,
        hole.start as int,
        hole.end as int,
        reached.cursor + at,
    );
}

/// Placing more nested regions goes on from placing the first of them.
proof fn lemma_nested_on(
    site: Site,
    placing: Placing,
    start: int,
    nested: Seq<syntax::Nested>,
    k: int,
)
    requires
        text::bytes(site.output).len() <= usize::MAX,
        0 <= k <= nested.len(),
    ensures
        site.advances(
            site.nested(placing, start, nested.take(k)).0,
            site.nested(placing, start, nested).0,
        ),
    decreases nested.len() - k,
{
    if k == nested.len() {
        assert(nested.take(k) =~= nested);
    } else {
        let more = nested.take(k + 1);
        assert(more.drop_last() =~= nested.take(k));
        assert(more.last() == nested[k]);
        let (a, cursor) = site.nested(placing, start, nested.take(k));
        let b = site.nested(placing, start, more).0;
        let reached = site.up_to(a, cursor, nested[k].start as int);
        site.lemma_verbatim_advances(a, cursor, nested[k].start - cursor);
        if let Some(node) = nested[k].node {
            site.lemma_node_advances(reached, node);
            site.lemma_advances_on(a, reached, b);
        }
        lemma_nested_on(site, placing, start, nested, k + 1);
        site.lemma_advances_on(a, b, site.nested(placing, start, nested).0);
    }
}

/// What is placed with one of the regions nested in an expression, the expression
/// keeps.
proof fn lemma_nested(
    site: Site,
    placing: Placing,
    hole: Hole,
    k: int,
    start: int,
    end: int,
    at: int,
)
    requires
        text::bytes(site.output).len() <= usize::MAX,
        hole.nested@.len() > 0,
        0 <= k <= hole.nested@.len(),
        map_builder::in_turn(
            site.nested(placing, hole.start as int, hole.nested@.take(k)).0.runs,
        ),
        covered(
            site.nested(placing, hole.start as int, hole.nested@.take(k)).0.runs,
            start,
            end,
            at,
        ),
    ensures
        covered(site.hole(placing, Some(hole)).runs, start, end, at),
{
    let nested = hole.nested@;
    let a = site.nested(placing, hole.start as int, nested.take(k)).0;
    let (reached, cursor) = site.nested(placing, hole.start as int, nested);
    lemma_nested_on(site, placing, hole.start as int, nested, k);
    lemma_later(site, a, reached, start, end, at);
    site.lemma_verbatim_advances(reached, cursor, hole.end - cursor);
    lemma_later(
        site,
        reached,
        site.up_to(reached, cursor, hole.end as int),
        start,
        end,
        at,
    );
}

/// Whatever stands in an expression before one of the regions nested in it, and
/// whatever that region places, is in a run: the former where it stands for
/// certain, and the latter as it was placed.
pub proof fn law_a_nested_region_is_mapped_with_what_leads_to_it(
    site: Site,
    placing: Placing,
    hole: Hole,
    k: int,
    at: int,
    start: int,
    end: int,
    there: int,
)
    requires
        0 <= k < hole.nested@.len(),
        text::bytes(site.output).len() <= usize::MAX,
        map_builder::in_turn(
            site.nested(placing, hole.start as int, hole.nested@.take(k)).0.runs,
        ),
    ensures
        ({
            let (reached, from) = site.nested(placing, hole.start as int, hole.nested@.take(k));
            let to = hole.nested@[k].start as int;
            &&& ahead(site, reached, from) && certain(site, reached, from, to, at) ==> covered(
                site.hole(placing, Some(hole)).runs,
                from,
                to,
                reached.cursor + at,
            ) && past_it(
                site,
                site.up_to(reached, from, to),
                to,
                reached.cursor + at + (to - from),
            )
            &&& match hole.nested@[k].node {
                Some(node) => covered(
                    site.node(site.up_to(reached, from, to), node).runs,
                    start,
                    end,
                    there,
                ) ==> covered(site.hole(placing, Some(hole)).runs, start, end, there),
                None => true,
            }
        }),
{
    let nested = hole.nested@;
    let more = nested.take(k + 1);
    assert(more.drop_last() =~= nested.take(k));
    assert(more.last() == nested[k]);
    let (reached, from) = site.nested(placing, hole.start as int, nested.take(k));
    let to = nested[k].start as int;
    let led = site.up_to(reached, from, to);
    let b = site.nested(placing, hole.start as int, more).0;
    site.lemma_verbatim_advances(reached, from, to - from);
    if let Some(node) = nested[k].node {
        site.lemma_node_advances(led, node);
    }
    if ahead(site, reached, from) && certain(site, reached, from, to, at) {
        lemma_recorded(site, reached, from, to, at);
        lemma_later(site, led, b, from, to, reached.cursor + at);
        lemma_nested(site, placing, hole, k + 1, from, to, reached.cursor + at);
    }
    if let Some(node) = nested[k].node {
        if covered(site.node(led, node).runs, start, end, there) {
            lemma_nested(site, placing, hole, k + 1, start, end, there);
        }
    }
}

/// What follows the last region nested in an expression is in a run wherever it
/// stands for certain.
pub proof fn law_the_rest_of_an_expression_is_mapped(
    site: Site,
    placing: Placing,
    hole: Hole,
    at: int,
)
    requires
        hole.nested@.len() > 0,
        ({
            let (reached, from) = site.nested(placing, hole.start as int, hole.nested@);
            &&& ahead(site, reached, from)
            &&& certain(site, reached, from, hole.end as int, at)
        }),
    ensures
        ({
            let (reached, from) = site.nested(placing, hole.start as int, hole.nested@);
            covered(
                site.hole(placing, Some(hole)).runs,
                from,
                hole.end as int,
                reached.cursor + at,
            ) && past_it(
                site,
                site.hole(placing, Some(hole)),
                hole.end as int,
                reached.cursor + at + (hole.end - from),
            )
        }),
{
    let (reached, from) = site.nested(placing, hole.start as int, hole.nested@);
    lemma_recorded(site, reached, from, hole.end as int, at);
}

/// Placing the regions of a line goes on from placing the first of them.
proof fn lemma_group_on(site: Site, placing: Placing, found: Seq<Region>, first: int, k: int, last: int)
    requires
        text::bytes(site.output).len() <= usize::MAX,
        first <= k <= last,
    ensures
        site.advances(
            site.group(placing, found, first, k),
            site.group(placing, found, first, last),
        ),
    decreases last - k,
{
    if k < last {
        lemma_group_on(site, placing, found, first, k, last - 1);
        let a = site.group(placing, found, first, last - 1);
        let (from, to) = (found[last - 1].end as int, found[last].start as int);
        let b = site.verbatim(a, from, to - from).unwrap_or(a);
        site.lemma_verbatim_advances(a, from, to - from);
        site.lemma_node_advances(b, found[last].node);
        let c = site.group(placing, found, first, last);
        site.lemma_advances_on(a, b, c);
        site.lemma_advances_on(site.group(placing, found, first, k), a, c);
    }
}

/// Where one of the regions of a line begins to be placed.
pub open spec fn come_to(site: Site, placing: Placing, found: Seq<Region>, first: int, k: int) -> Placing {
    if k <= first {
        placing
    } else {
        let before = site.group(placing, found, first, k - 1);
        match site.verbatim(
            before,
            found[k - 1].end as int,
            found[k].start - found[k - 1].end,
        ) {
            Some(after) => after,
            None => before,
        }
    }
}

/// Recording one more run loses none.
proof fn lemma_offered(site: Site, runs: Seq<Run>, run: Run)
    ensures
        extends(runs, site.offered(runs, run)),
{
    if map_builder::in_turn(runs) {
        site.lemma_in_turn(runs, run);
    }
}

proof fn lemma_identity(
    site: Site,
    runs: Seq<Run>,
    start: int,
    cursor: int,
    until: int,
    split: Option<(usize, usize)>,
)
    ensures
        extends(runs, site.identity(runs, start, cursor, until, split).0),
{
    match split {
        Some((at, length)) if start <= at < until => {
            let (first, reached) = site.stretch(runs, start, cursor, at as int);
            lemma_offered(site, runs, map_builder::run_at(start, cursor, at - start));
            lemma_offered(
                site,
                first,
                map_builder::run_at(
                    at as int,
                    map_builder::capped(reached + length),
                    until - at,
                ),
            );
            lemma_extends(
                runs,
                first,
                site.identity(runs, start, cursor, until, split).0,
            );
        },
        _ => {
            lemma_offered(site, runs, map_builder::run_at(start, cursor, until - start));
        },
    }
}

proof fn lemma_extends(a: Seq<Run>, b: Seq<Run>, c: Seq<Run>)
    requires
        extends(a, b),
        extends(b, c),
    ensures
        extends(a, c),
{
    assert forall|i: int| 0 <= i < a.len() implies #[trigger] c[i] == a[i] by {
        assert(b[i] == a[i]);
    }
}

/// Placing the rest of a file loses nothing.
proof fn lemma_runs_from(
    source: Seq<char>,
    output: Seq<char>,
    found: Seq<Region>,
    split: Option<(usize, usize)>,
    index: int,
    runs: Seq<Run>,
    source_cursor: int,
    output_cursor: int,
)
    requires
        text::bytes(output).len() <= usize::MAX,
    ensures
        extends(
            runs,
            map_builder::runs_from(
                source,
                output,
                found,
                split,
                index,
                runs,
                source_cursor,
                output_cursor,
            ),
        ),
    decreases found.len() - index,
{
    let whole = Site { source, output, limit: text::bytes(output).len() as int };
    if index >= found.len() {
        lemma_identity(
            whole,
            runs,
            source_cursor,
            output_cursor,
            text::bytes(source).len() as int,
            split,
        );
    } else {
        let last = map_builder::group_end(source, found, index);
        match map_builder::output_end(source, output, found[last].end as int) {
            Some(limit) if index <= last < found.len() => {
                let until = found[index].start as int;
                let (before, cursor) = whole.identity(
                    runs,
                    source_cursor,
                    output_cursor,
                    until,
                    split,
                );
                lemma_identity(whole, runs, source_cursor, output_cursor, until, split);
                let site = Site { source, output, limit };
                let start = Placing { runs: before, cursor };
                let after = site.group(start, found, index, last);
                site.lemma_node_advances(start, found[index].node);
                lemma_group_on(site, start, found, index, index, last);
                site.lemma_advances_on(start, site.group(start, found, index, index), after);
                lemma_extends(runs, before, after.runs);
                lemma_runs_from(
                    source,
                    output,
                    found,
                    split,
                    last + 1,
                    after.runs,
                    found[last].end as int,
                    limit,
                );
                lemma_extends(
                    runs,
                    after.runs,
                    map_builder::runs_from(
                        source,
                        output,
                        found,
                        split,
                        last + 1,
                        after.runs,
                        found[last].end as int,
                        limit,
                    ),
                );
            },
            _ => {},
        }
    }
}

/// Whatever a region places, and whatever stands between it and the next on its
/// line, is in the map of the file.
pub proof fn law_a_file_keeps_the_runs_of_its_regions(
    source: Seq<char>,
    output: Seq<char>,
    found: Seq<Region>,
    split: Option<(usize, usize)>,
    index: int,
    runs: Seq<Run>,
    source_cursor: int,
    output_cursor: int,
    k: int,
    start: int,
    end: int,
    at: int,
)
    requires
        text::bytes(output).len() <= usize::MAX,
        map_builder::in_turn(runs),
        0 <= index <= k <= map_builder::group_end(source, found, index) < found.len(),
        map_builder::output_end(
            source,
            output,
            found[map_builder::group_end(source, found, index)].end as int,
        ) is Some,
        ({
            let last = map_builder::group_end(source, found, index);
            let limit = map_builder::output_end(source, output, found[last].end as int)->Some_0;
            let whole = Site { source, output, limit: text::bytes(output).len() as int };
            let (before, cursor) = whole.identity(
                runs,
                source_cursor,
                output_cursor,
                found[index].start as int,
                split,
            );
            let site = Site { source, output, limit };
            let reached = come_to(
                site,
                Placing { runs: before, cursor },
                found,
                index,
                k,
            );
            covered(site.node(reached, found[k].node).runs, start, end, at)
        }),
    ensures
        covered(
            map_builder::runs_from(
                source,
                output,
                found,
                split,
                index,
                runs,
                source_cursor,
                output_cursor,
            ),
            start,
            end,
            at,
        ),
{
    let last = map_builder::group_end(source, found, index);
    let limit = map_builder::output_end(source, output, found[last].end as int)->Some_0;
    let whole = Site { source, output, limit: text::bytes(output).len() as int };
    let until = found[index].start as int;
    let (before, cursor) = whole.identity(runs, source_cursor, output_cursor, until, split);
    lemma_identity(whole, runs, source_cursor, output_cursor, until, split);
    let site = Site { source, output, limit };
    let begin = Placing { runs: before, cursor };
    let here = site.group(begin, found, index, k);
    let reached = come_to(site, begin, found, index, k);
    assert(here == site.node(reached, found[k].node));
    site.lemma_node_advances(begin, found[index].node);
    lemma_group_on(site, begin, found, index, index, k);
    assert(map_builder::in_turn(here.runs));
    lemma_group_on(site, begin, found, index, k, last);
    let after = site.group(begin, found, index, last);
    lemma_later(site, here, after, start, end, at);
    lemma_runs_from(
        source,
        output,
        found,
        split,
        last + 1,
        after.runs,
        found[last].end as int,
        limit,
    );
    lemma_kept(
        after.runs,
        map_builder::runs_from(
            source,
            output,
            found,
            split,
            last + 1,
            after.runs,
            found[last].end as int,
            limit,
        ),
        start,
        end,
        at,
    );
}

/// How far the source before the next region goes, or, past the last, the file.
pub open spec fn untouched_to(source: Seq<char>, found: Seq<Region>, index: int) -> int {
    if index < found.len() {
        found[index].start as int
    } else {
        text::bytes(source).len() as int
    }
}

/// Whether the next regions of a file can be placed: where the output of the line
/// they share ends is known.
pub open spec fn placeable(
    source: Seq<char>,
    output: Seq<char>,
    found: Seq<Region>,
    index: int,
) -> bool {
    let last = map_builder::group_end(source, found, index);
    index < found.len() ==> index <= last < found.len() && map_builder::output_end(
        source,
        output,
        found[last].end as int,
    ) is Some
}

/// Whether a stretch of source stands in the output at an offset.
pub open spec fn copied(source: Seq<char>, output: Seq<char>, start: int, end: int, at: int) -> bool {
    &&& start < end
    &&& text::cuttable(source, start, end)
    &&& text::occurs(text::bytes(output), text::bytes(source).subrange(start, end), at)
}

/// A stretch of source that was copied and comes after all that is recorded is
/// recorded.
proof fn lemma_stretch(site: Site, runs: Seq<Run>, start: int, cursor: int, until: int)
    requires
        map_builder::in_turn(runs),
        runs.len() > 0 ==> runs.last().end(Side::Source) <= start && runs.last().end(Side::Output)
            <= cursor,
        text::bytes(site.source).len() <= usize::MAX,
        text::bytes(site.output).len() <= usize::MAX,
        copied(site.source, site.output, start, until, cursor),
    ensures
        ({
            let (after, reached) = site.stretch(runs, start, cursor, until);
            &&& covered(after, start, until, cursor)
            &&& reached == cursor + (until - start)
            &&& map_builder::in_turn(after)
            &&& after.last().end(Side::Source) == until
            &&& after.last().end(Side::Output) == reached
            &&& after.len() > 0
        }),
{
    let piece = text::cut(site.source, start, until);
    text::lemma_cut(site.source, start, until);
    text::lemma_boundary_range(site.source, until);
    if piece.len() == 0 {
        assert(piece =~= Seq::empty());
        text::lemma_bytes_concat(piece, piece);
        assert(piece + piece =~= piece);
    }
    text::lemma_occurs_boundaries(site.output, piece, cursor);
    let run = map_builder::run_at(start, cursor, until - start);
    assert(site.takes(runs, run));
    site.lemma_in_turn(runs, run);
    lemma_pushed(runs, run);
}

/// Source outside every region is in a run, if the output has it where it has
/// come to: before each region, after the last, and on both sides of the preamble
/// that the compiler puts in.
pub proof fn law_untouched_source_is_mapped(
    source: Seq<char>,
    output: Seq<char>,
    found: Seq<Region>,
    split: Option<(usize, usize)>,
    index: int,
    runs: Seq<Run>,
    start: int,
    cursor: int,
)
    requires
        map_builder::in_turn(runs),
        runs.len() > 0 ==> runs.last().end(Side::Source) <= start && runs.last().end(Side::Output)
            <= cursor,
        text::bytes(source).len() <= usize::MAX,
        text::bytes(output).len() <= usize::MAX,
        placeable(source, output, found, index),
    ensures
        ({
            let until = untouched_to(source, found, index);
            let all = map_builder::runs_from(
                source,
                output,
                found,
                split,
                index,
                runs,
                start,
                cursor,
            );
            match split {
                Some((at, length)) if start <= at < until => {
                    let there = cursor + (at - start) + length;
                    &&& copied(source, output, start, at as int, cursor) ==> covered(
                        all,
                        start,
                        at as int,
                        cursor,
                    )
                    &&& (start == at || copied(source, output, start, at as int, cursor)) && copied(
                        source,
                        output,
                        at as int,
                        until,
                        there,
                    ) ==> covered(all, at as int, until, there)
                },
                _ => copied(source, output, start, until, cursor) ==> covered(
                    all,
                    start,
                    until,
                    cursor,
                ),
            }
        }),
{
    let until = untouched_to(source, found, index);
    let whole = Site { source, output, limit: text::bytes(output).len() as int };
    let all = map_builder::runs_from(source, output, found, split, index, runs, start, cursor);
    let (before, reached) = whole.identity(runs, start, cursor, until, split);
    lemma_after_identity(source, output, found, split, index, runs, start, cursor);
    lemma_identity(whole, runs, start, cursor, until, split);
    match split {
        Some((at, length)) if start <= at < until => {
            let there = cursor + (at - start) + length;
            let (first, middle) = whole.stretch(runs, start, cursor, at as int);
            lemma_offered(whole, runs, map_builder::run_at(start, cursor, at - start));
            lemma_offered(
                whole,
                first,
                map_builder::run_at(
                    at as int,
                    map_builder::capped(middle + length),
                    until - at,
                ),
            );
            if copied(source, output, start, at as int, cursor) {
                lemma_stretch(whole, runs, start, cursor, at as int);
                lemma_kept(first, before, start, at as int, cursor);
                lemma_kept(before, all, start, at as int, cursor);
            }
            if (start == at || copied(source, output, start, at as int, cursor)) && copied(
                source,
                output,
                at as int,
                until,
                there,
            ) {
                lemma_stretch(whole, first, at as int, there, until);
                lemma_kept(before, all, at as int, until, there);
            }
        },
        _ => {
            if copied(source, output, start, until, cursor) {
                lemma_stretch(whole, runs, start, cursor, until);
                lemma_kept(before, all, start, until, cursor);
            }
        },
    }
}

/// What is recorded before a region stays recorded.
proof fn lemma_after_identity(
    source: Seq<char>,
    output: Seq<char>,
    found: Seq<Region>,
    split: Option<(usize, usize)>,
    index: int,
    runs: Seq<Run>,
    start: int,
    cursor: int,
)
    requires
        text::bytes(output).len() <= usize::MAX,
        placeable(source, output, found, index),
    ensures
        extends(
            (Site { source, output, limit: text::bytes(output).len() as int }).identity(
                runs,
                start,
                cursor,
                untouched_to(source, found, index),
                split,
            ).0,
            map_builder::runs_from(source, output, found, split, index, runs, start, cursor),
        ),
{
    if index < found.len() {
        let whole = Site { source, output, limit: text::bytes(output).len() as int };
        let last = map_builder::group_end(source, found, index);
        let limit = map_builder::output_end(source, output, found[last].end as int)->Some_0;
        let (before, reached) = whole.identity(
            runs,
            start,
            cursor,
            found[index].start as int,
            split,
        );
        let site = Site { source, output, limit };
        let begin = Placing { runs: before, cursor: reached };
        let after = site.group(begin, found, index, last);
        site.lemma_node_advances(begin, found[index].node);
        lemma_group_on(site, begin, found, index, index, last);
        site.lemma_advances_on(begin, site.group(begin, found, index, index), after);
        lemma_runs_from(
            source,
            output,
            found,
            split,
            last + 1,
            after.runs,
            found[last].end as int,
            limit,
        );
        lemma_extends(
            before,
            after.runs,
            map_builder::runs_from(source, output, found, split, index, runs, start, cursor),
        );
    }
}

/// An attribute that is on by being there is stepped over, value and all.
pub proof fn law_a_flag_is_stepped_over(site: Site, placing: Placing, element: ElementNode, k: int)
    requires
        0 <= k < element.attributes@.len(),
        element.attributes@[k] matches Prop::Named { key: Some(_), value: PropValue::Boolean, .. },
        !replaced(element, names_of(element.attributes@[k])->Some_0.0),
        ({
            let (name, key) = names_of(element.attributes@[k])->Some_0;
            let reached = dressed_to(site, placing, element, k);
            let from = element.attributes@[k].span().start;
            &&& ahead(site, reached, from as int)
            &&& from + text::bytes(name).len() <= text::bytes(site.source).len()
            &&& past(site, reached, key + " = "@) matches Some(n) && text::occurs(
                site.window(reached),
                text::bytes("true"@),
                n,
            )
        }),
    ensures
        ({
            let (name, key) = names_of(element.attributes@[k])->Some_0;
            let reached = dressed_to(site, placing, element, k);
            let from = element.attributes@[k].span().start;
            past_it(
                site,
                dressed_to(site, placing, element, k + 1),
                from + text::bytes(name).len(),
                reached.cursor + past(site, reached, key + " = "@)->Some_0 + text::bytes(
                    "true"@,
                ).len(),
            )
        }),
{
    let plan = map_builder::plan_of(element);
    let props = element.attributes@;
    let (name, key) = names_of(props[k])->Some_0;
    let reached = dressed_to(site, placing, element, k);
    let n = past(site, reached, key + " = "@)->Some_0;
    let from = props[k].span().start;
    assert(!(plan.emits_text && name == "Text"@));
    assert(props.take(k + 1).drop_last() =~= props.take(k));
    assert(props.take(k + 1).last() == props[k]);
    lemma_keyed(site, reached, name, key, from);
    let after = site.keyed(reached, name, key, from as int)->Some_0;
    let b = text::bytes("true"@);
    reveal_strlit("true");
    assert(site.window(after).subrange(0, b.len() as int) =~= site.window(reached).subrange(
        n,
        n + b.len(),
    ));
    assert(text::occurs(site.window(after), b, 0));
    assert(past(site, after, "true"@) == Some(b.len() as int));
    lemma_stepped(site, after, "true"@, from + text::bytes(name).len());
    let stepped = site.anchored(after, "true"@)->Some_0;
    match props[k] {
        Prop::Named { name: written, key: Some(emitted), value: PropValue::Boolean, span } => {
            assert(written@ == name && emitted@ == key && span.start == from);
            assert(site.prop(reached, props[k], plan) == stepped);
        },
        _ => {},
    }
    assert(dressed_to(site, placing, element, k + 1) == site.prop(reached, props[k], plan));
}

/// Placing an element begins where the output is, unless its name is a call, and
/// goes on where its last attribute ends; its children are placed from there, or
/// from past its text, and nothing moves for what emits nothing.
pub proof fn law_placing_goes_on_where_it_is(site: Site, placing: Placing, node: Markup, k: int)
    requires
        0 <= k < children_of(node).len(),
    ensures
        match node {
            Markup::Element(element) => {
                &&& !(element.meaning is Component) ==> dressed_to(site, placing, element, 0)
                    == placing
                &&& dressed_to(site, placing, element, 0) == begun(site, placing, element)
                &&& dressed_to(site, placing, element, element.attributes@.len() as int) == dressed(
                    site,
                    placing,
                    element,
                )
                &&& !takes_text(element) ==> peopled_to(site, placing, node, 0) == dressed(
                    site,
                    placing,
                    element,
                )
            },
            Markup::Fragment(_) => peopled_to(site, placing, node, 0) == placing,
        },
        peopled_to(site, placing, node, 0) == peopled(site, placing, node),
        peopled_to(site, placing, node, children_of(node).len() as int) == site.node(placing, node),
        children_of(node)[k] is Text || children_of(node)[k] is Comment ==> peopled_to(
            site,
            placing,
            node,
            k + 1,
        ) == peopled_to(site, placing, node, k),
        children_of(node)[k] matches Item::Node(child) ==> peopled_to(site, placing, node, k + 1)
            == site.node(peopled_to(site, placing, node, k), child),
{
    let items = children_of(node);
    assert(items.take(0) =~= Seq::empty());
    assert(items.take(items.len() as int) =~= items);
    assert(items.take(k + 1).drop_last() =~= items.take(k));
    assert(items.take(k + 1).last() == items[k]);
    if let Markup::Element(element) = node {
        assert(element.attributes@.take(0) =~= Seq::empty());
        assert(element.attributes@.take(element.attributes@.len() as int) =~= element.attributes@);
        if text::bytes(site.output).len() <= usize::MAX {
            lemma_element(site, placing, element);
        }
    }
}

/// Where only elements and comments stand between its tags, an element has no text
/// to place. Where several pieces of text do, they are placed one after the other,
/// and literal text moves nothing.
pub proof fn law_text_is_placed_piece_by_piece(
    site: Site,
    placing: Placing,
    element: ElementNode,
    i: int,
    j: int,
    k: int,
)
    requires
        0 <= k < element.children@.len(),
    ensures
        (forall|m: int|
            0 <= m < element.children@.len() ==> !(#[trigger] element.children@[m] is Text)
                && !(element.children@[m] is Expression)) ==> peopled(
            site,
            placing,
            Markup::Element(element),
        ) == dressed(site, placing, element),
        site.parts(telling(site, placing, element), element.children@.take(0)) == telling(
            site,
            placing,
            element,
        ),
        !(element.children@[k] is Expression) ==> site.parts(
            telling(site, placing, element),
            element.children@.take(k + 1),
        ) == site.parts(telling(site, placing, element), element.children@.take(k)),
        ({
            &&& takes_text(element)
            &&& 0 <= i < j < element.children@.len()
            &&& element.children@[i] is Text || element.children@[i] is Expression
            &&& element.children@[j] is Text || element.children@[j] is Expression
            &&& forall|m: int|
                0 <= m < element.children@.len() ==> !(#[trigger] element.children@[m] is Node)
            &&& site.open(dressed(site, placing, element))
            &&& past(site, dressed(site, placing, element), "Text = "@) is Some
        }) ==> peopled(site, placing, Markup::Element(element)) == site.parts(
            telling(site, placing, element),
            element.children@,
        ),
{
    let items = element.children@;
    let plan = map_builder::plan_of(element);
    assert(items.take(0) =~= Seq::empty());
    assert(items.take(k + 1).drop_last() =~= items.take(k));
    assert(items.take(k + 1).last() == items[k]);
    if takes_text(element) && 0 <= i < j < items.len() && (items[i] is Text || items[i]
        is Expression) && (items[j] is Text || items[j] is Expression) {
        lemma_two_parts(items, i, j);
        lemma_part_bounds(items);
        assert(element.children.len() == items.len());
        assert(plan.parts != 1);
    }
}

/// What stands between two regions of a line is in a run wherever it stands for
/// certain, and the second region is placed from right past it.
pub proof fn law_what_stands_between_regions_is_mapped(
    site: Site,
    placing: Placing,
    found: Seq<Region>,
    first: int,
    k: int,
    at: int,
)
    requires
        first < k,
        ({
            let before = site.group(placing, found, first, k - 1);
            &&& ahead(site, before, found[k - 1].end as int)
            &&& certain(site, before, found[k - 1].end as int, found[k].start as int, at)
        }),
    ensures
        ({
            let before = site.group(placing, found, first, k - 1);
            let (from, to) = (found[k - 1].end as int, found[k].start as int);
            &&& covered(site.group(placing, found, first, k).runs, from, to, before.cursor + at)
            &&& past_it(
                site,
                come_to(site, placing, found, first, k),
                to,
                before.cursor + at + (to - from),
            )
        }),
        come_to(site, placing, found, first, first) == placing,
        site.group(placing, found, first, k) == site.node(
            come_to(site, placing, found, first, k),
            found[k].node,
        ),
{
    let before = site.group(placing, found, first, k - 1);
    let (from, to) = (found[k - 1].end as int, found[k].start as int);
    lemma_recorded(site, before, from, to, at);
    let reached = come_to(site, placing, found, first, k);
    site.lemma_node_advances(reached, found[k].node);
    lemma_later(
        site,
        reached,
        site.group(placing, found, first, k),
        from,
        to,
        before.cursor + at,
    );
}

/// Stepping over source outside every region takes the output as far as that
/// source goes, and past the preamble, if that stands in it.
pub proof fn law_untouched_source_is_stepped_over(
    site: Site,
    runs: Seq<Run>,
    start: int,
    cursor: int,
    until: int,
    split: Option<(usize, usize)>,
)
    requires
        0 <= cursor,
        start <= until,
        cursor + (until - start) + match split {
            Some((_, length)) => length as int,
            None => 0,
        } <= usize::MAX,
    ensures
        site.identity(runs, start, cursor, until, split).1 == match split {
            Some((at, length)) if start <= at < until => cursor + (until - start) + length,
            _ => cursor + (until - start),
        },
{
}

/// Where all that follows a region on its line follows it in the output too, at the
/// end of the same line, that is where the region ends there.
pub proof fn law_the_end_of_a_region_is_found(
    source: Seq<char>,
    output: Seq<char>,
    source_end: int,
    end: int,
)
    requires
        ({
            let line = line_index::newlines(text::bytes(source), source_end);
            let here = line_index::line_finish(source, line);
            let there = line_index::line_finish(output, line);
            &&& source_end <= here
            &&& line_index::line_begin(output, line) <= end
            &&& here - source_end == there - end
            &&& text::cuttable(output, end, there)
            &&& text::cut(output, end, there) == text::cut(source, source_end, here)
        }),
    ensures
        map_builder::output_end(source, output, source_end) == Some(end),
{
}

/// Regions are placed together just where each begins on the line on which the one
/// before it ends.
pub proof fn law_regions_of_a_line_go_together(source: Seq<char>, found: Seq<Region>, index: int)
    requires
        0 <= index < found.len(),
    ensures
        ({
            let last = map_builder::group_end(source, found, index);
            let b = text::bytes(source);
            &&& index <= last < found.len()
            &&& forall|k: int|
                index <= k < last ==> line_index::newlines(
                    b,
                    (#[trigger] found[k]).end as int,
                ) == line_index::newlines(b, found[k + 1].start as int)
            &&& last + 1 < found.len() ==> line_index::newlines(b, found[last].end as int)
                != line_index::newlines(b, found[last + 1].start as int)
        }),
    decreases found.len() - index,
{
    let last = map_builder::group_end(source, found, index);
    let b = text::bytes(source);
    if index + 1 < found.len() && line_index::newlines(b, found[index].end as int)
        == line_index::newlines(b, found[index + 1].start as int) {
        law_regions_of_a_line_go_together(source, found, index + 1);
        assert forall|k: int| index <= k < last implies line_index::newlines(
            b,
            (#[trigger] found[k]).end as int,
        ) == line_index::newlines(b, found[k + 1].start as int) by {}
    }
}

/// A file whose lines the output keeps is placed from its start, and one whose
/// lines it does not keep is not placed at all.
pub proof fn law_a_map_needs_the_same_lines(
    source: Seq<char>,
    output: Seq<char>,
    found: Seq<Region>,
    split: Option<(usize, usize)>,
    side: Side,
    offset: int,
)
    ensures
        ({
            let runs = map_builder::runs_of(source, output, found, split);
            if line_index::line_starts(source).len() == line_index::line_starts(output).len() {
                runs == map_builder::runs_from(
                    source,
                    output,
                    found,
                    split,
                    0,
                    Seq::empty(),
                    0,
                    0,
                )
            } else {
                sourcemap::mapped(runs, side, offset) is None
            }
        }),
{
}

} // verus!
