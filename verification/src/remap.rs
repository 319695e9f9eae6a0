//! Translating positions and URIs across the proxy boundary.
//!
//! Requests going down are rewritten from `src/App.luaux` to `build/App.luau`;
//! responses coming back are rewritten the other way. Both directions walk the
//! JSON generically rather than knowing each message's shape, which is what
//! keeps us decoupled from luau-lsp's protocol surface — an unknown field is
//! carried through untouched instead of being dropped by a struct that had
//! never heard of it.
//!
//! **`None` means none.** A range that lands in generated text — `create(`,
//! `Text = `, the `__luaux_read` wrapper — has no source counterpart, and
//! anything carrying it is dropped rather than moved to whatever is nearest.
//! A wrong position sends people to code they did not write.

use vstd::prelude::*;
use vstd::string::*;

use crate::document::{self, emit, read_position};
use crate::json::{self, Field, Json, JsonView};
use crate::line_index::{self, LineIndex, Position};
use crate::sourcemap::{self, Run, Side, SourceMap};
use crate::text::{self, same};

verus! {

/// Which way a translation runs.
#[derive(Debug, Clone, Copy, PartialEq, Eq, Structural)]
pub enum Direction {
    /// `.luaux` → generated `.luau`.
    Down,
    /// generated `.luau` → `.luaux`.
    Up,
}

/// Other spellings of one file's URI. luau-lsp re-encodes URIs into its own
/// normal form, so a file is known by more than the editor's name for it.
#[derive(Debug)]
pub struct Spellings {
    pub source: Vec<String>,
    pub output: Vec<String>,
}

/// Whether a URI is one of some.
pub open spec fn spelled(list: Seq<String>, uri: Seq<char>) -> bool {
    exists|i: int| 0 <= i < list.len() && (#[trigger] list[i])@ == uri
}

/// A translation, as plain values.
pub struct Crossing {
    pub runs: Seq<Run>,
    pub source: Seq<char>,
    pub output: Seq<char>,
    pub source_uri: Seq<char>,
    pub output_uri: Seq<char>,
    /// Other spellings of the first, and of the second.
    pub source_spellings: Seq<String>,
    pub output_spellings: Seq<String>,
    pub direction: Direction,
}

/// Whether a key names the value that is a thing's location. Losing one of these
/// makes the whole object meaningless, so it goes rather than arriving without a
/// place.
pub open spec fn positional(key: Seq<char>) -> bool {
    ||| key == "range"@
    ||| key == "position"@
    ||| key == "selectionRange"@
    ||| key == "targetRange"@
    ||| key == "targetSelectionRange"@
    ||| key == "originSelectionRange"@
}

/// Whether a key names a URI.
pub open spec fn names_uri(key: Seq<char>) -> bool {
    key == "uri"@ || key == "targetUri"@
}

impl Crossing {
    pub open spec fn names_source(self, uri: Seq<char>) -> bool {
        uri == self.source_uri || spelled(self.source_spellings, uri)
    }

    pub open spec fn names_output(self, uri: Seq<char>) -> bool {
        uri == self.output_uri || spelled(self.output_spellings, uri)
    }

    /// Whether a URI is that of either file.
    pub open spec fn is_ours(self, uri: Seq<char>) -> bool {
        self.names_source(uri) || self.names_output(uri)
    }

    /// A URI as the other side knows it.
    pub open spec fn rewritten(self, uri: Seq<char>) -> Seq<char> {
        match self.direction {
            Direction::Down => if self.names_source(uri) {
                self.output_uri
            } else {
                uri
            },
            Direction::Up => if self.names_output(uri) {
                self.source_uri
            } else {
                uri
            },
        }
    }

    /// The side that offsets come from.
    pub open spec fn side(self) -> Side {
        match self.direction {
            Direction::Down => Side::Source,
            Direction::Up => Side::Output,
        }
    }

    /// The text that positions come from.
    pub open spec fn incoming(self) -> Seq<char> {
        match self.direction {
            Direction::Down => self.source,
            Direction::Up => self.output,
        }
    }

    /// The text that positions go to.
    pub open spec fn outgoing(self) -> Seq<char> {
        match self.direction {
            Direction::Down => self.output,
            Direction::Up => self.source,
        }
    }

    /// What a range becomes, if the object is one: nothing, where it does not
    /// lie within one run.
    pub open spec fn range(self, fields: Seq<(Seq<char>, JsonView)>) -> Option<Option<JsonView>> {
        match (json::lookup(fields, "start"@), json::lookup(fields, "end"@)) {
            (Some(start), Some(end)) => match (
                document::byte_offset_of(self.incoming(), start),
                document::byte_offset_of(self.incoming(), end),
            ) {
                (Some(start), Some(end)) => Some(
                    match sourcemap::mapped_range(self.runs, self.side(), start, end) {
                        Some((start, end)) => Some(
                            document::range_at(self.outgoing(), start, end),
                        ),
                        None => None,
                    },
                ),
                _ => None,
            },
            _ => None,
        }
    }

    /// What a position becomes, if the object is one. A caret just past the end
    /// of a run is still in it — which is exactly where someone completing
    /// `{count|}` has their cursor.
    pub open spec fn position(self, fields: Seq<(Seq<char>, JsonView)>) -> Option<
        Option<JsonView>,
    > {
        if fields.len() != 2 || json::lookup(fields, "line"@) is None || json::lookup(
            fields,
            "character"@,
        ) is None {
            None
        } else {
            match document::byte_offset_of(self.incoming(), JsonView::Object(fields)) {
                None => None,
                Some(offset) => Some(
                    match sourcemap::mapped_range(self.runs, self.side(), offset, offset) {
                        Some((at, _)) => Some(document::position_at(self.outgoing(), at)),
                        None => None,
                    },
                ),
            }
        }
    }

    /// What a value becomes, and whether anything in it had to be dropped.
    pub open spec fn value(self, value: JsonView, ours: bool) -> (Option<JsonView>, bool)
        decreases value, 1int,
    {
        match value {
            JsonView::Array(items) => {
                let (kept, dropped) = self.items(items, ours);
                (Some(JsonView::Array(kept)), dropped)
            },
            JsonView::Object(fields) => {
                // A `uri` re-anchors everything beneath it: a location in another
                // file is not ours to translate.
                let ours = match value.get_str("uri"@) {
                    Some(uri) => self.is_ours(uri),
                    None => ours,
                };
                if ours && self.range(fields) is Some {
                    (self.range(fields)->Some_0, false)
                } else if ours && self.position(fields) is Some {
                    (self.position(fields)->Some_0, false)
                } else {
                    match self.fields(fields, ours) {
                        (Some(kept), dropped) => (Some(JsonView::Object(kept)), dropped),
                        (None, dropped) => (None, dropped),
                    }
                }
            },
            other => (Some(other), false),
        }
    }

    /// A list, without what does not translate.
    pub open spec fn items(self, items: Seq<JsonView>, ours: bool) -> (Seq<JsonView>, bool)
        decreases items, 0int,
    {
        if items.len() == 0 {
            (Seq::empty(), false)
        } else {
            let (before, dropped) = self.items(items.drop_last(), ours);
            match self.value(items.last(), ours) {
                (Some(mapped), more) => (before.push(mapped), dropped || more),
                (None, _) => (before, true),
            }
        }
    }

    /// Fields, without those that do not translate; nothing, where one of those
    /// is the object's location, or a URI is not a text.
    pub open spec fn fields(self, fields: Seq<(Seq<char>, JsonView)>, ours: bool) -> (
        Option<Seq<(Seq<char>, JsonView)>>,
        bool,
    )
        decreases fields, 0int,
    {
        if fields.len() == 0 {
            (Some(Seq::empty()), false)
        } else {
            let (key, value) = fields.last();
            match self.fields(fields.drop_last(), ours) {
                (None, dropped) => (None, dropped),
                (Some(before), dropped) => if names_uri(key) {
                    match value.str() {
                        Some(uri) => (
                            Some(before.push((key, JsonView::Text(self.rewritten(uri))))),
                            dropped,
                        ),
                        None => (None, dropped),
                    }
                } else {
                    match self.value(fields.last().1, ours) {
                        (Some(mapped), more) => (Some(before.push((key, mapped))), dropped || more),
                        (None, _) => if positional(key) {
                            (None, true)
                        } else {
                            (Some(before), true)
                        },
                    }
                },
            }
        }
    }
}

pub struct Remap<'a> {
    pub map: &'a SourceMap,
    pub source: &'a str,
    pub output: &'a str,
    pub source_index: &'a LineIndex,
    pub output_index: &'a LineIndex,
    /// The `.luaux` URI as the editor knows it.
    pub source_uri: &'a str,
    /// The generated `.luau` URI as luau-lsp knows it.
    pub output_uri: &'a str,
    /// What else the two are called.
    pub spellings: &'a Spellings,
    pub direction: Direction,
    /// Set when anything had to be dropped. Callers that must be all-or-nothing
    /// — rename, above all — check it before applying.
    pub dropped: bool,
}

impl Remap<'_> {
    pub open spec fn crossing(self) -> Crossing {
        Crossing {
            runs: self.map@,
            source: self.source@,
            output: self.output@,
            source_uri: self.source_uri@,
            output_uri: self.output_uri@,
            source_spellings: self.spellings.source@,
            output_spellings: self.spellings.output@,
            direction: self.direction,
        }
    }

    /// Whether the indexes are those of the texts.
    pub open spec fn wf(self) -> bool {
        &&& self.map.wf()
        &&& self.source_index.of(self.source@)
        &&& self.output_index.of(self.output@)
    }

    /// Whether only what was dropped differs.
    pub open spec fn follows(self, before: Self) -> bool {
        &&& self.map == before.map
        &&& self.source == before.source
        &&& self.output == before.output
        &&& self.source_index == before.source_index
        &&& self.output_index == before.output_index
        &&& self.source_uri == before.source_uri
        &&& self.output_uri == before.output_uri
        &&& self.spellings == before.spellings
        &&& self.direction == before.direction
    }

    /// Rewrites a whole message.
    ///
    /// `Some` is a message that survived translation intact enough to use;
    /// `None` means it does not apply to the other side at all.
    pub fn message(&mut self, value: &Json) -> (r: Option<Json>)
        requires
            old(self).wf(),
        ensures
            final(self).follows(*old(self)),
            same_json(r, old(self).crossing().value(value@, true).0),
            final(self).dropped == (old(self).dropped || old(self).crossing().value(
                value@,
                true,
            ).1),
    {
        // A message is about our document until something says otherwise.
        self.value(value, true)
    }

    /// Rewrites only the parts of a message that name *this* pair.
    ///
    /// The opposite default to [`Remap::message`], and the difference matters:
    /// an answer about one document can carry locations in another `.luaux`, and
    /// those are translated by running the message through a second `Remap`
    /// built for that file. Such a pass must assume nothing — a `Hover` has no
    /// `uri` at all, and mapping its range through a foreign file's map would
    /// move it somewhere meaningless.
    pub fn foreign_message(&mut self, value: &Json) -> (r: Option<Json>)
        requires
            old(self).wf(),
        ensures
            final(self).follows(*old(self)),
            same_json(r, old(self).crossing().value(value@, false).0),
            final(self).dropped == (old(self).dropped || old(self).crossing().value(
                value@,
                false,
            ).1),
    {
        self.value(value, false)
    }

    fn value(&mut self, value: &Json, ours: bool) -> (r: Option<Json>)
        requires
            old(self).wf(),
        ensures
            final(self).follows(*old(self)),
            same_json(r, old(self).crossing().value(value@, ours).0),
            final(self).dropped == (old(self).dropped || old(self).crossing().value(
                value@,
                ours,
            ).1),
        decreases value, 1int,
    {
        match value {
            Json::Array(items) => {
                let ghost before = *self;
                let mut kept: Vec<Json> = Vec::new();
                let mut i: usize = 0;
                proof {
                    json::lemma_list_view(items@);
                    assert(json::list_view(items@).take(0) =~= Seq::<JsonView>::empty());
                }
                while i < items.len()
                    invariant
                        self.follows(before),
                        self.wf(),
                        *value == Json::Array(*items),
                        i <= items@.len(),
                        json::list_view(items@).len() == items@.len(),
                        forall|j: int|
                            0 <= j < items@.len() ==> #[trigger] json::list_view(items@)[j]
                                == items@[j]@,
                        json::list_view(kept@) == before.crossing().items(
                            json::list_view(items@).take(i as int),
                            ours,
                        ).0,
                        self.dropped == (before.dropped || before.crossing().items(
                            json::list_view(items@).take(i as int),
                            ours,
                        ).1),
                    decreases items@.len() - i,
                {
                    proof {
                        let all = json::list_view(items@);
                        assert(all.take(i + 1).drop_last() =~= all.take(i as int));
                        assert(all.take(i + 1).last() == items@[i as int]@);
                        assert(decreases_to!(value => value->Array_0@[i as int]));
                    }
                    match self.value(&items[i], ours) {
                        Some(mapped) => {
                            proof {
                                json::lemma_list_view_push(kept@, mapped);
                            }
                            kept.push(mapped);
                        },
                        None => {
                            self.dropped = true;
                        },
                    }
                    i = i + 1;
                }
                proof {
                    let all = json::list_view(items@);
                    assert(all.take(all.len() as int) =~= all);
                }
                Some(Json::Array(kept))
            },
            Json::Object(_) => self.object(value, ours),
            other => Some(other.copy()),
        }
    }

    fn object(&mut self, value: &Json, ours: bool) -> (r: Option<Json>)
        requires
            old(self).wf(),
            *value is Object,
        ensures
            final(self).follows(*old(self)),
            same_json(r, old(self).crossing().value(value@, ours).0),
            final(self).dropped == (old(self).dropped || old(self).crossing().value(
                value@,
                ours,
            ).1),
        decreases value, 0int,
    {
        let fields = match value {
            Json::Object(fields) => fields,
            _ => {
                return None;
            },
        };
        // A `uri` re-anchors everything beneath it: a location in another file
        // is not ours to translate, and touching its positions would corrupt it.
        let inner = match value.get_str("uri") {
            Some(uri) => self.is_ours(uri),
            None => ours,
        };
        if inner {
            if let Some(range) = self.range(value) {
                return range;
            }
            if let Some(position) = self.position_object(value) {
                return position;
            }
        }
        let ghost before = *self;
        let mut out: Vec<Field> = Vec::new();
        let mut i: usize = 0;
        let ghost all = json::fields_view(fields@);
        proof {
            json::lemma_fields_view(fields@);
            assert(all.take(0) =~= Seq::<(Seq<char>, JsonView)>::empty());
        }
        while i < fields.len()
            invariant
                self.follows(before),
                self.wf(),
                *value == Json::Object(*fields),
                i <= fields@.len(),
                all == json::fields_view(fields@),
                all.len() == fields@.len(),
                forall|j: int|
                    0 <= j < fields@.len() ==> #[trigger] all[j] == (
                        fields@[j].key@,
                        fields@[j].value@,
                    ),
                before.crossing().fields(all.take(i as int), inner).0 == Some(
                    json::fields_view(out@),
                ),
                self.dropped == (before.dropped || before.crossing().fields(
                    all.take(i as int),
                    inner,
                ).1),
                before == *old(self),
                before.crossing().value(value@, ours) == match before.crossing().fields(
                    all,
                    inner,
                ) {
                    (Some(kept), dropped) => (Some(JsonView::Object(kept)), dropped),
                    (None, dropped) => (None, dropped),
                },
            decreases fields@.len() - i,
        {
            let field = &fields[i];
            proof {
                assert(all.take(i + 1).drop_last() =~= all.take(i as int));
                assert(all.take(i + 1).last() == all[i as int]);
                assert(decreases_to!(value => value->Object_0@[i as int]));
            }
            let mapped = if same(field.key.as_str(), "uri") || same(
                field.key.as_str(),
                "targetUri",
            ) {
                match field.value.as_str() {
                    Some(uri) => Json::Text(self.rewrite_uri(uri)),
                    None => {
                        proof {
                            before.crossing().lemma_fields_stop(all, i + 1, inner);
                        }
                        return None;
                    },
                }
            } else {
                match self.value(&field.value, inner) {
                    Some(mapped) => mapped,
                    None => {
                        self.dropped = true;
                        // A container whose *position* did not survive is not
                        // relocatable; one that merely lost an optional field is.
                        if is_positional(field.key.as_str()) {
                            proof {
                                before.crossing().lemma_fields_stop(all, i + 1, inner);
                            }
                            return None;
                        }
                        i = i + 1;
                        continue;
                    },
                }
            };
            let one = Field { key: field.key.clone(), value: mapped };
            proof {
                json::lemma_fields_view_push(out@, one);
            }
            out.push(one);
            i = i + 1;
        }
        assert(all.take(all.len() as int) =~= all);
        Some(Json::Object(out))
    }

    /// Compared as files, not as strings: everything travelling *up* was written
    /// by luau-lsp, which re-encodes URIs into its own normal form.
    fn is_ours(&self, uri: &str) -> (r: bool)
        ensures
            r == self.crossing().is_ours(uri@),
    {
        names(uri, self.source_uri, &self.spellings.source) || names(
            uri,
            self.output_uri,
            &self.spellings.output,
        )
    }

    fn rewrite_uri(&self, uri: &str) -> (r: String)
        ensures
            r@ == self.crossing().rewritten(uri@),
    {
        match self.direction {
            Direction::Down => if names(uri, self.source_uri, &self.spellings.source) {
                self.output_uri.to_owned()
            } else {
                uri.to_owned()
            },
            Direction::Up => if names(uri, self.output_uri, &self.spellings.output) {
                self.source_uri.to_owned()
            } else {
                uri.to_owned()
            },
        }
    }

    /// Translates `{ start, end }`, requiring both edges to land in one run.
    ///
    /// Two positions that map individually can still straddle generated text,
    /// and the range between them would then cover code the author never wrote.
    fn range(&self, object: &Json) -> (r: Option<Option<Json>>)
        requires
            self.wf(),
            *object is Object,
        ensures
            match (r, self.crossing().range(object@->Object_0)) {
                (Some(a), Some(b)) => same_json(a, b),
                (None, None) => true,
                _ => false,
            },
    {
        let (start, end) = match (object.get("start"), object.get("end")) {
            (Some(start), Some(end)) => match (self.offset(start), self.offset(end)) {
                (Some(start), Some(end)) => (start, end),
                _ => {
                    return None;
                },
            },
            _ => {
                return None;
            },
        };
        let mapped = match self.direction {
            Direction::Down => self.map.to_output_range(start, end),
            Direction::Up => self.map.to_source_range(start, end),
        };
        Some(
            match mapped {
                Some((start, end)) => Some(
                    Json::object().with("start", self.emit(start)).with("end", self.emit(end)),
                ),
                None => None,
            },
        )
    }

    fn position_object(&self, object: &Json) -> (r: Option<Option<Json>>)
        requires
            self.wf(),
            *object is Object,
        ensures
            match (r, self.crossing().position(object@->Object_0)) {
                (Some(a), Some(b)) => same_json(a, b),
                (None, None) => true,
                _ => false,
            },
    {
        let count: usize = match object {
            Json::Object(fields) => {
                proof {
                    json::lemma_fields_view(fields@);
                }
                fields.len()
            },
            _ => 0,
        };
        if count != 2 || object.get("line").is_none() || object.get("character").is_none() {
            return None;
        }
        let offset: usize = match self.offset(object) {
            Some(offset) => offset,
            None => {
                return None;
            },
        };
        // A caret just past the end of a run is still in it — which is exactly
        // where someone completing `{count|}` has their cursor.
        let mapped = match self.direction {
            Direction::Down => self.map.to_output_range(offset, offset),
            Direction::Up => self.map.to_source_range(offset, offset),
        };
        Some(
            match mapped {
                Some((at, _)) => Some(self.emit(at)),
                None => None,
            },
        )
    }

    /// LSP position on the *incoming* side → byte offset.
    fn offset(&self, value: &Json) -> (r: Option<usize>)
        requires
            self.wf(),
        ensures
            sourcemap::same_offset(r, document::byte_offset_of(self.crossing().incoming(), value@)),
    {
        match read_position(value) {
            Some(position) => match self.direction {
                Direction::Down => self.source_index.offset(self.source, position),
                Direction::Up => self.output_index.offset(self.output, position),
            },
            None => None,
        }
    }

    /// Byte offset on the *outgoing* side → LSP position.
    fn emit(&self, offset: usize) -> (r: Json)
        requires
            self.wf(),
        ensures
            r@ == document::position_at(self.crossing().outgoing(), offset as int),
    {
        emit(
            match self.direction {
                Direction::Down => self.output_index.position(self.output, offset),
                Direction::Up => self.source_index.position(self.source, offset),
            },
        )
    }
}

/// Whether a value that may be missing is the one promised.
pub open spec fn same_json(value: Option<Json>, promised: Option<JsonView>) -> bool {
    match (value, promised) {
        (Some(a), Some(b)) => a@ == b,
        (None, None) => true,
        _ => false,
    }
}

/// Whether a URI is a file's, under any of its spellings.
fn names(uri: &str, known: &str, others: &Vec<String>) -> (r: bool)
    ensures
        r == (uri@ == known@ || spelled(others@, uri@)),
{
    if same(uri, known) {
        return true;
    }
    let mut i: usize = 0;
    while i < others.len()
        invariant
            i <= others@.len(),
            forall|j: int| 0 <= j < i ==> (#[trigger] others@[j])@ != uri@,
        decreases others@.len() - i,
    {
        if same(others[i].as_str(), uri) {
            assert(others@[i as int]@ == uri@);
            return true;
        }
        i = i + 1;
    }
    false
}

fn is_positional(key: &str) -> (r: bool)
    ensures
        r == positional(key@),
{
    same(key, "range") || same(key, "position") || same(key, "selectionRange") || same(
        key,
        "targetRange",
    ) || same(key, "targetSelectionRange") || same(key, "originSelectionRange")
}

impl Crossing {
    /// Once an object cannot be kept, its later fields are not looked at.
    proof fn lemma_fields_stop(self, fields: Seq<(Seq<char>, JsonView)>, n: int, ours: bool)
        requires
            0 <= n <= fields.len(),
            self.fields(fields.take(n), ours).0 is None,
        ensures
            self.fields(fields, ours) == self.fields(fields.take(n), ours),
        decreases fields.len(),
    {
        if n == fields.len() {
            assert(fields.take(n) =~= fields);
        } else {
            assert(fields.drop_last().take(n) =~= fields.take(n));
            self.lemma_fields_stop(fields.drop_last(), n, ours);
        }
    }
}

/// Whether every URI in a value is a text that names neither file.
pub open spec fn foreign(crossing: Crossing, value: JsonView) -> bool
    decreases value,
{
    match value {
        JsonView::Array(items) => forall|i: int|
            0 <= i < items.len() ==> foreign(crossing, #[trigger] items[i]),
        JsonView::Object(fields) => forall|i: int|
            #![trigger fields[i]]
            0 <= i < fields.len() ==> if names_uri(fields[i].0) {
                fields[i].1 matches JsonView::Text(uri) && !crossing.is_ours(uri)
            } else {
                foreign(crossing, fields[i].1)
            },
        _ => true,
    }
}

/// What crosses keeps the fields of its objects by key.
pub proof fn law_crossing_keeps_fields_by_key(crossing: Crossing, value: JsonView, ours: bool)
    requires
        json::keyed(value),
    ensures
        crossing.value(value, ours).0 matches Some(mapped) ==> json::keyed(mapped),
    decreases value, 1int,
{
    match value {
        JsonView::Array(items) => {
            lemma_items_keyed(crossing, items, ours);
            assert(json::keyed(JsonView::Array(crossing.items(items, ours).0)));
        },
        JsonView::Object(fields) => {
            let ours = match value.get_str("uri"@) {
                Some(uri) => crossing.is_ours(uri),
                None => ours,
            };
            document::lemma_ranges_keyed();
            lemma_fields_keyed(crossing, fields, ours);
        },
        _ => {},
    }
}

proof fn lemma_items_keyed(crossing: Crossing, items: Seq<JsonView>, ours: bool)
    requires
        forall|i: int| 0 <= i < items.len() ==> json::keyed(#[trigger] items[i]),
    ensures
        ({
            let kept = crossing.items(items, ours).0;
            forall|i: int| 0 <= i < kept.len() ==> json::keyed(#[trigger] kept[i])
        }),
    decreases items, 0int,
{
    if items.len() > 0 {
        let before = crossing.items(items.drop_last(), ours).0;
        lemma_items_keyed(crossing, items.drop_last(), ours);
        assert(items.last() == items[items.len() - 1]);
        law_crossing_keeps_fields_by_key(crossing, items.last(), ours);
        let kept = crossing.items(items, ours).0;
        assert forall|i: int| 0 <= i < kept.len() implies json::keyed(#[trigger] kept[i]) by {
            if i < before.len() {
                assert(kept[i] == before[i]);
            }
        }
    }
}

proof fn lemma_fields_keyed(crossing: Crossing, fields: Seq<(Seq<char>, JsonView)>, ours: bool)
    requires
        json::sorted(fields),
        forall|i: int|
            #![trigger fields[i]]
            0 <= i < fields.len() ==> json::keyed(fields[i].1),
    ensures
        crossing.fields(fields, ours).0 matches Some(kept) ==> {
            &&& json::sorted(kept)
            &&& forall|i: int|
                #![trigger kept[i]]
                0 <= i < kept.len() ==> json::keyed(kept[i].1) && exists|j: int|
                    0 <= j < fields.len() && (#[trigger] fields[j]).0 == kept[i].0
        },
    decreases fields, 0int,
{
    if fields.len() > 0 {
        let before = fields.drop_last();
        lemma_fields_keyed(crossing, before, ours);
        law_crossing_keeps_fields_by_key(crossing, fields.last().1, ours);
        if let Some(kept) = crossing.fields(fields, ours).0 {
            let kept_before = crossing.fields(before, ours).0->Some_0;
            assert forall|i: int| 0 <= i < kept_before.len() implies exists|j: int|
                0 <= j < fields.len() - 1 && (#[trigger] fields[j]).0 == (
                #[trigger] kept_before[i]).0 by {
                let j = choose|j: int|
                    0 <= j < before.len() && (#[trigger] before[j]).0 == kept_before[i].0;
                assert(fields[j] == before[j]);
            }
            assert(fields[fields.len() - 1] == fields.last());
        }
    }
}

/// Locations in other files pass through untouched.
pub proof fn law_foreign_values_pass_through(crossing: Crossing, value: JsonView, ours: bool)
    requires
        foreign(crossing, value),
        !ours || value.get_str("uri"@) is Some,
    ensures
        crossing.value(value, ours) == (Some(value), false),
    decreases value, 1int,
{
    match value {
        JsonView::Array(items) => {
            lemma_foreign_items(crossing, items);
        },
        JsonView::Object(fields) => {
            if value.get_str("uri"@) is Some {
                lemma_lookup(fields, "uri"@);
            }
            lemma_foreign_fields(crossing, fields);
        },
        _ => {},
    }
}

proof fn lemma_foreign_items(crossing: Crossing, items: Seq<JsonView>)
    requires
        forall|i: int| 0 <= i < items.len() ==> foreign(crossing, #[trigger] items[i]),
    ensures
        crossing.items(items, false) == (items, false),
    decreases items, 0int,
{
    if items.len() > 0 {
        assert(foreign(crossing, items[items.len() - 1]));
        law_foreign_values_pass_through(crossing, items.last(), false);
        assert forall|i: int| 0 <= i < items.drop_last().len() implies foreign(
            crossing,
            #[trigger] items.drop_last()[i],
        ) by {
            assert(foreign(crossing, items[i]));
        }
        lemma_foreign_items(crossing, items.drop_last());
        assert(items.drop_last().push(items.last()) =~= items);
    } else {
        assert(items =~= Seq::<JsonView>::empty());
    }
}

proof fn lemma_foreign_fields(crossing: Crossing, fields: Seq<(Seq<char>, JsonView)>)
    requires
        forall|i: int|
            #![trigger fields[i]]
            0 <= i < fields.len() ==> if names_uri(fields[i].0) {
                fields[i].1 matches JsonView::Text(uri) && !crossing.is_ours(uri)
            } else {
                foreign(crossing, fields[i].1)
            },
    ensures
        crossing.fields(fields, false) == (Some(fields), false),
    decreases fields, 0int,
{
    if fields.len() > 0 {
        let last = fields[fields.len() - 1];
        assert(fields.last() == last);
        if !names_uri(last.0) {
            assert(foreign(crossing, fields.last().1));
            law_foreign_values_pass_through(crossing, fields.last().1, false);
        }
        assert forall|i: int|
            #![trigger fields.drop_last()[i]]
            0 <= i < fields.drop_last().len() implies if names_uri(fields.drop_last()[i].0) {
            fields.drop_last()[i].1 matches JsonView::Text(uri) && !crossing.is_ours(uri)
        } else {
            foreign(crossing, fields.drop_last()[i].1)
        } by {
            assert(fields.drop_last()[i] == fields[i]);
        }
        lemma_foreign_fields(crossing, fields.drop_last());
        assert(fields.drop_last().push(fields.last()) =~= fields);
    } else {
        assert(fields =~= Seq::<(Seq<char>, JsonView)>::empty());
    }
}

/// What is looked up is there.
proof fn lemma_lookup(fields: Seq<(Seq<char>, JsonView)>, key: Seq<char>)
    ensures
        json::lookup(fields, key) matches Some(value) ==> exists|i: int|
            0 <= i < fields.len() && #[trigger] fields[i] == (key, value),
    decreases fields.len(),
{
    if fields.len() > 0 {
        if fields[0].0 == key {
            assert(fields[0] == (key, fields[0].1));
        } else {
            lemma_lookup(fields.drop_first(), key);
            if let Some(value) = json::lookup(fields, key) {
                let i = choose|i: int|
                    0 <= i < fields.drop_first().len() && #[trigger] fields.drop_first()[i] == (
                        key,
                        value,
                    );
                assert(fields[i + 1] == (key, value));
            }
        }
    }
}

/// Whether a value holds nothing that looks like a place: no URI, and no object
/// with a `start` or a `line`.
pub open spec fn placeless(value: JsonView) -> bool
    decreases value,
{
    match value {
        JsonView::Array(items) => forall|i: int|
            0 <= i < items.len() ==> placeless(#[trigger] items[i]),
        JsonView::Object(fields) => {
            &&& json::lookup(fields, "start"@) is None
            &&& json::lookup(fields, "line"@) is None
            &&& json::lookup(fields, "uri"@) is None
            &&& forall|i: int|
                #![trigger fields[i]]
                0 <= i < fields.len() ==> !names_uri(fields[i].0) && placeless(fields[i].1)
        },
        _ => true,
    }
}

/// Whatever holds no place is carried through untouched.
pub proof fn law_unknown_values_are_carried_through(
    crossing: Crossing,
    value: JsonView,
    ours: bool,
)
    requires
        placeless(value),
    ensures
        crossing.value(value, ours) == (Some(value), false),
    decreases value, 1int,
{
    match value {
        JsonView::Array(items) => {
            lemma_placeless_items(crossing, items, ours);
        },
        JsonView::Object(fields) => {
            lemma_placeless_fields(crossing, fields, ours);
        },
        _ => {},
    }
}

proof fn lemma_placeless_items(crossing: Crossing, items: Seq<JsonView>, ours: bool)
    requires
        forall|i: int| 0 <= i < items.len() ==> placeless(#[trigger] items[i]),
    ensures
        crossing.items(items, ours) == (items, false),
    decreases items, 0int,
{
    if items.len() > 0 {
        assert(placeless(items[items.len() - 1]));
        law_unknown_values_are_carried_through(crossing, items.last(), ours);
        assert forall|i: int| 0 <= i < items.drop_last().len() implies placeless(
            #[trigger] items.drop_last()[i],
        ) by {
            assert(placeless(items[i]));
        }
        lemma_placeless_items(crossing, items.drop_last(), ours);
        assert(items.drop_last().push(items.last()) =~= items);
    } else {
        assert(items =~= Seq::<JsonView>::empty());
    }
}

proof fn lemma_placeless_fields(
    crossing: Crossing,
    fields: Seq<(Seq<char>, JsonView)>,
    ours: bool,
)
    requires
        forall|i: int|
            #![trigger fields[i]]
            0 <= i < fields.len() ==> !names_uri(fields[i].0) && placeless(fields[i].1),
    ensures
        crossing.fields(fields, ours) == (Some(fields), false),
    decreases fields, 0int,
{
    if fields.len() > 0 {
        let last = fields[fields.len() - 1];
        assert(fields.last() == last);
        law_unknown_values_are_carried_through(crossing, fields.last().1, ours);
        assert forall|i: int|
            #![trigger fields.drop_last()[i]]
            0 <= i < fields.drop_last().len() implies !names_uri(fields.drop_last()[i].0)
            && placeless(fields.drop_last()[i].1) by {
            assert(fields.drop_last()[i] == fields[i]);
        }
        lemma_placeless_fields(crossing, fields.drop_last(), ours);
        assert(fields.drop_last().push(fields.last()) =~= fields);
    } else {
        assert(fields =~= Seq::<(Seq<char>, JsonView)>::empty());
    }
}

/// An object whose own place does not translate goes rather than arriving
/// without one.
pub proof fn law_a_lost_place_loses_its_object(
    crossing: Crossing,
    fields: Seq<(Seq<char>, JsonView)>,
    i: int,
    ours: bool,
)
    requires
        0 <= i < fields.len(),
        positional(fields[i].0),
        crossing.value(fields[i].1, ours).0 is None,
    ensures
        crossing.fields(fields, ours).0 is None,
{
    reveal_strlit("uri");
    reveal_strlit("targetUri");
    reveal_strlit("range");
    reveal_strlit("position");
    reveal_strlit("selectionRange");
    reveal_strlit("targetRange");
    reveal_strlit("targetSelectionRange");
    reveal_strlit("originSelectionRange");
    let key = fields[i].0;
    assert("uri"@.len() == 3 && "range"@.len() == 5 && "position"@.len() == 8);
    assert("targetUri"@.len() == 9 && "selectionRange"@.len() == 14);
    assert("targetRange"@.len() == 11 && "targetSelectionRange"@.len() == 20);
    assert("originSelectionRange"@.len() == 20);
    assert(!names_uri(key));
    assert(fields.take(i + 1).last() == fields[i]);
    crossing.lemma_fields_stop(fields, i + 1, ours);
}

/// Where nothing is said to have been dropped, no item of a list is missing.
pub proof fn law_nothing_is_dropped_unsaid(crossing: Crossing, items: Seq<JsonView>, ours: bool)
    requires
        !crossing.items(items, ours).1,
    ensures
        crossing.items(items, ours).0.len() == items.len(),
        forall|i: int|
            0 <= i < items.len() ==> crossing.value(#[trigger] items[i], ours) == (
                Some(crossing.items(items, ours).0[i]),
                false,
            ),
    decreases items.len(),
{
    if items.len() > 0 {
        law_nothing_is_dropped_unsaid(crossing, items.drop_last(), ours);
        assert forall|i: int| 0 <= i < items.len() implies crossing.value(
            #[trigger] items[i],
            ours,
        ) == (Some(crossing.items(items, ours).0[i]), false) by {
            if i < items.len() - 1 {
                assert(items.drop_last()[i] == items[i]);
            }
        }
    }
}

/// A position that goes down comes back up where it was: at the start of the
/// text it stood for, as long as its numbers fit and it does not land inside a
/// line terminator of the output.
pub proof fn law_positions_come_back(down: Crossing, up: Crossing, position: Position, at: int)
    requires
        sourcemap::ordered(down.runs),
        down.direction is Down,
        up == (Crossing { direction: Direction::Up, ..down }),
        line_index::offset_of(down.source, position) == Some(at),
        sourcemap::mapped(down.runs, Side::Source, at) is Some,
        line_index::addressable(
            down.output,
            sourcemap::mapped(down.runs, Side::Source, at)->Some_0,
        ),
    ensures
        ({
            let sent = down.value(document::position_json(position), true).0;
            &&& sent is Some
            &&& up.value(sent->Some_0, true).0 == Some(document::position_at(down.source, at))
        }),
{
    let there = sourcemap::mapped(down.runs, Side::Source, at)->Some_0;
    let landed = line_index::position_of(down.output, there);
    document::lemma_position_in(position);
    document::lemma_position_in(landed);
    line_index::law_positions_round_trip(down.output, there);
    sourcemap::law_runs_round_trip(down.runs, Side::Source, at);
}

/// Whether a range lies within one run, starting on one of its bytes.
pub open spec fn lies_in(run: Run, side: Side, start: int, end: int) -> bool {
    run.holds(side, start) && start <= end <= run.end(side)
}

/// Whether a value is a range of our file that reads as two of its offsets.
pub open spec fn is_range(text: Seq<char>, value: JsonView, start: int, end: int) -> bool {
    &&& value is Object
    &&& value.get_str("uri"@) is None
    &&& document::byte_range_of(text, value) == Some((start, end))
}

/// A range within one run is translated, whichever way it goes, and the two
/// offsets that can be read from it on the other side delimit there exactly the
/// bytes that it delimited here.
///
/// They have to be ones that a position can say.
pub proof fn law_a_range_covers_the_same_text_on_the_other_side(
    crossing: Crossing,
    value: JsonView,
    i: int,
    start: int,
    end: int,
)
    requires
        sourcemap::ordered(crossing.runs),
        0 <= i < crossing.runs.len(),
        crossing.runs[i].verbatim(crossing.source, crossing.output),
        is_range(crossing.incoming(), value, start, end),
        lies_in(crossing.runs[i], crossing.side(), start, end),
        line_index::addressable(
            crossing.outgoing(),
            crossing.runs[i].across(crossing.side(), start),
        ),
        line_index::addressable(
            crossing.outgoing(),
            crossing.runs[i].across(crossing.side(), end),
        ),
    ensures
        !crossing.value(value, true).1,
        match crossing.value(value, true).0 {
            Some(sent) => match document::byte_range_of(crossing.outgoing(), sent) {
                Some((from, to)) => {
                    &&& from == crossing.runs[i].across(crossing.side(), start)
                    &&& to == crossing.runs[i].across(crossing.side(), end)
                    &&& 0 <= start <= end <= text::bytes(crossing.incoming()).len()
                    &&& 0 <= from <= to <= text::bytes(crossing.outgoing()).len()
                    &&& text::bytes(crossing.outgoing()).subrange(from, to) == text::bytes(
                        crossing.incoming(),
                    ).subrange(start, end)
                },
                None => false,
            },
            None => false,
        },
{
    let run = crossing.runs[i];
    let side = crossing.side();
    let (from, to) = (run.across(side, start), run.across(side, end));
    sourcemap::lemma_holder(crossing.runs, side, start, i);
    document::law_ranges_read_back(crossing.outgoing(), from, to);
    let here = text::bytes(crossing.incoming()).subrange(run.start(side), run.end(side));
    let there = text::bytes(crossing.outgoing()).subrange(
        run.start(side.other()),
        run.end(side.other()),
    );
    assert(here == there);
    let (a, b) = (start - run.start(side), end - run.start(side));
    assert(text::bytes(crossing.incoming()).subrange(start, end) =~= here.subrange(a, b));
    assert(text::bytes(crossing.outgoing()).subrange(from, to) =~= there.subrange(a, b));
}

/// A range that no run holds whole reaches into generated text, and has no place
/// on the other side.
pub proof fn law_a_range_into_generated_text_is_dropped(
    crossing: Crossing,
    value: JsonView,
    start: int,
    end: int,
)
    requires
        is_range(crossing.incoming(), value, start, end),
        start < end,
        forall|i: int|
            0 <= i < crossing.runs.len() ==> !lies_in(
                #[trigger] crossing.runs[i],
                crossing.side(),
                start,
                end,
            ),
    ensures
        crossing.value(value, true).0 is None,
{
    if let Some(run) = sourcemap::holder(crossing.runs, crossing.side(), start) {
        let i = choose|i: int|
            0 <= i < crossing.runs.len() && (#[trigger] crossing.runs[i]).holds(
                crossing.side(),
                start,
            );
        assert(!lies_in(crossing.runs[i], crossing.side(), start, end));
    }
}

/// A range within one run that goes down comes back up as it was.
pub proof fn law_ranges_come_back(down: Crossing, up: Crossing, i: int, start: int, end: int)
    requires
        sourcemap::ordered(down.runs),
        down.direction is Down,
        up == (Crossing { direction: Direction::Up, ..down }),
        0 <= i < down.runs.len(),
        lies_in(down.runs[i], Side::Source, start, end),
        line_index::addressable(down.source, start),
        line_index::addressable(down.source, end),
        line_index::addressable(down.output, down.runs[i].across(Side::Source, start)),
        line_index::addressable(down.output, down.runs[i].across(Side::Source, end)),
    ensures
        ({
            let range = document::range_at(down.source, start, end);
            match down.value(range, true).0 {
                Some(sent) => up.value(sent, true).0 == Some(range),
                None => false,
            }
        }),
{
    let run = down.runs[i];
    let (from, to) = (run.across(Side::Source, start), run.across(Side::Source, end));
    sourcemap::lemma_holder(down.runs, Side::Source, start, i);
    sourcemap::lemma_holder(down.runs, Side::Output, from, i);
    document::law_ranges_read_back(down.source, start, end);
    document::law_ranges_read_back(down.output, from, to);
    lemma_ranges_have_no_uri();
}

/// A range names no file.
proof fn lemma_ranges_have_no_uri()
    ensures
        forall|text: Seq<char>, start: int, end: int|
            (#[trigger] document::range_at(text, start, end)).get_str("uri"@) is None,
{
    json::lemma_gets();
    reveal_strlit("start");
    reveal_strlit("end");
    reveal_strlit("uri");
    assert("start"@.len() == 5 && "end"@.len() == 3 && "uri"@.len() == 3);
    assert("end"@[0] == 'e' && "uri"@[0] == 'u');
}

/// Where a position is translated to, whichever way it goes: to the same byte of
/// the run that holds it, or, just past a run and in no other, to just past that
/// run. Anywhere else is generated text, and has no place on the other side.
pub proof fn law_a_position_lands_on_the_same_byte(
    crossing: Crossing,
    position: Position,
    at: int,
    i: int,
)
    requires
        sourcemap::ordered(crossing.runs),
        line_index::offset_of(crossing.incoming(), position) == Some(at),
    ensures
        ({
            let side = crossing.side();
            let runs = crossing.runs;
            let inside = 0 <= i < runs.len() && runs[i].holds(side, at);
            let past = 0 <= i < runs.len() && runs[i].closes(side, at) && forall|j: int|
                0 <= j < runs.len() ==> !(#[trigger] runs[j]).holds(side, at);
            let sent = crossing.value(document::position_json(position), true).0;
            &&& (inside || past) && line_index::addressable(
                crossing.outgoing(),
                runs[i].across(side, at),
            ) ==> match sent {
                Some(sent) => document::byte_offset_of(crossing.outgoing(), sent) == Some(
                    runs[i].across(side, at),
                ),
                None => false,
            }
            &&& (forall|j: int|
                0 <= j < runs.len() ==> !(#[trigger] runs[j]).holds(side, at) && !runs[j].closes(
                    side,
                    at,
                )) ==> sent is None
        }),
{
    let side = crossing.side();
    let runs = crossing.runs;
    document::lemma_position_in(position);
    if 0 <= i < runs.len() {
        let there = runs[i].across(side, at);
        if line_index::addressable(crossing.outgoing(), there) {
            document::lemma_position_in(line_index::position_of(crossing.outgoing(), there));
            line_index::law_positions_round_trip(crossing.outgoing(), there);
        }
        if runs[i].holds(side, at) {
            sourcemap::lemma_holder(runs, side, at, i);
        } else if runs[i].closes(side, at) {
            sourcemap::lemma_closer(runs, side, at, i);
        }
    }
}

/// Whatever our file is called, going down it is called what luau-lsp knows it by
/// and coming back what the editor does; any other file keeps its name.
pub proof fn law_names_come_back(down: Crossing, up: Crossing, uri: Seq<char>)
    requires
        down.direction is Down,
        up == (Crossing { direction: Direction::Up, ..down }),
    ensures
        down.names_source(uri) ==> down.rewritten(uri) == down.output_uri && up.rewritten(
            down.rewritten(uri),
        ) == down.source_uri,
        up.names_output(uri) ==> up.rewritten(uri) == down.source_uri,
        !down.is_ours(uri) ==> down.rewritten(uri) == uri && up.rewritten(uri) == uri,
{
}

/// Where nothing is said to have been dropped, every field of an object is still
/// there under its key: a URI as the other side knows it, and anything else as
/// it is translated.
pub proof fn law_no_field_is_dropped_unsaid(
    crossing: Crossing,
    fields: Seq<(Seq<char>, JsonView)>,
    ours: bool,
)
    requires
        crossing.fields(fields, ours).0 is Some,
        !crossing.fields(fields, ours).1,
    ensures
        ({
            let kept = crossing.fields(fields, ours).0->Some_0;
            &&& kept.len() == fields.len()
            &&& forall|i: int|
                #![trigger fields[i]]
                #![trigger kept[i]]
                0 <= i < fields.len() ==> {
                    &&& kept[i].0 == fields[i].0
                    &&& if names_uri(fields[i].0) {
                        fields[i].1.str() matches Some(uri) && kept[i].1 == JsonView::Text(
                            crossing.rewritten(uri),
                        )
                    } else {
                        crossing.value(fields[i].1, ours) == (Some(kept[i].1), false)
                    }
                }
        }),
    decreases fields.len(),
{
    if fields.len() > 0 {
        let rest = fields.drop_last();
        law_no_field_is_dropped_unsaid(crossing, rest, ours);
        let kept = crossing.fields(fields, ours).0->Some_0;
        let before = crossing.fields(rest, ours).0->Some_0;
        assert forall|i: int|
            #![trigger fields[i]]
            #![trigger kept[i]]
            0 <= i < fields.len() implies {
            &&& kept[i].0 == fields[i].0
            &&& if names_uri(fields[i].0) {
                fields[i].1.str() matches Some(uri) && kept[i].1 == JsonView::Text(
                    crossing.rewritten(uri),
                )
            } else {
                crossing.value(fields[i].1, ours) == (Some(kept[i].1), false)
            }
        } by {
            if i < rest.len() {
                assert(rest[i] == fields[i]);
                assert(kept[i] == before[i]);
            }
        }
    }
}

/// An object goes with any of the values that are its place, whatever else it
/// holds.
pub proof fn law_every_place_counts(
    crossing: Crossing,
    fields: Seq<(Seq<char>, JsonView)>,
    i: int,
    ours: bool,
)
    requires
        0 <= i < fields.len(),
        crossing.value(fields[i].1, ours).0 is None,
        ({
            ||| fields[i].0 == "range"@
            ||| fields[i].0 == "position"@
            ||| fields[i].0 == "selectionRange"@
            ||| fields[i].0 == "targetRange"@
            ||| fields[i].0 == "targetSelectionRange"@
            ||| fields[i].0 == "originSelectionRange"@
        }),
    ensures
        crossing.fields(fields, ours).0 is None,
{
    law_a_lost_place_loses_its_object(crossing, fields, i, ours);
}

/// A field that is no place and does not translate is left out, and everything
/// else stays: what stands before it and what stands after it.
pub proof fn law_a_lost_field_is_left_out(
    crossing: Crossing,
    fields: Seq<(Seq<char>, JsonView)>,
    key: Seq<char>,
    value: JsonView,
    ours: bool,
)
    requires
        crossing.fields(fields, ours).0 is Some,
        crossing.value(value, ours).0 is None,
        key != "uri"@,
        key != "targetUri"@,
        key != "range"@,
        key != "position"@,
        key != "selectionRange"@,
        key != "targetRange"@,
        key != "targetSelectionRange"@,
        key != "originSelectionRange"@,
    ensures
        crossing.fields(fields.push((key, value)), ours) == (
            crossing.fields(fields, ours).0,
            true,
        ),
{
    assert(fields.push((key, value)).drop_last() =~= fields);
}

/// What a location or a link names its file by is what the other side knows that
/// file by.
pub proof fn law_named_files_are_renamed(
    crossing: Crossing,
    fields: Seq<(Seq<char>, JsonView)>,
    key: Seq<char>,
    uri: Seq<char>,
    ours: bool,
)
    requires
        crossing.fields(fields, ours).0 is Some,
        key == "uri"@ || key == "targetUri"@,
    ensures
        crossing.fields(fields.push((key, JsonView::Text(uri))), ours) == (
            Some(
                crossing.fields(fields, ours).0->Some_0.push(
                    (key, JsonView::Text(crossing.rewritten(uri))),
                ),
            ),
            crossing.fields(fields, ours).1,
        ),
{
    assert(fields.push((key, JsonView::Text(uri))).drop_last() =~= fields);
}

} // verus!
