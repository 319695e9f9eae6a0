//! Open documents and their text.
//!
//! Sync is incremental where the editor offers it: a keystroke should not resend
//! the file, because everything downstream — compile, map, forward — runs on
//! every change, and the proxy is already paying for one round trip.

use vstd::prelude::*;
use vstd::string::*;

use crate::json::{self, Json, JsonView, NumberView};
use crate::line_index::{self, LineIndex, Position};
use crate::text::{self, length, same, slice};

verus! {

/// A position, as JSON.
pub open spec fn position_json(position: Position) -> JsonView {
    JsonView::object().with(
        "line"@,
        JsonView::Number(NumberView::Unsigned(position.line as u64)),
    ).with("character"@, JsonView::Number(NumberView::Unsigned(position.character as u64)))
}

/// Where an offset of a text is, as JSON.
pub open spec fn position_at(text: Seq<char>, offset: int) -> JsonView {
    position_json(line_index::position_of(text, offset))
}

/// Where a byte range of a text is, as JSON.
pub open spec fn range_at(text: Seq<char>, start: int, end: int) -> JsonView {
    JsonView::object().with("start"@, position_at(text, start)).with("end"@, position_at(text, end))
}

/// Positions and ranges keep their fields by key.
pub proof fn lemma_ranges_keyed()
    ensures
        forall|text: Seq<char>, offset: int| json::keyed(#[trigger] position_at(text, offset)),
        forall|text: Seq<char>, start: int, end: int|
            json::keyed(#[trigger] range_at(text, start, end)),
{
    assert forall|text: Seq<char>, offset: int| json::keyed(#[trigger] position_at(text, offset)) by {
        let position = line_index::position_of(text, offset);
        let line = JsonView::Number(NumberView::Unsigned(position.line as u64));
        let character = JsonView::Number(NumberView::Unsigned(position.character as u64));
        json::law_objects_keep_their_fields_by_key(JsonView::object(), "line"@, line);
        json::law_objects_keep_their_fields_by_key(
            JsonView::object().with("line"@, line),
            "character"@,
            character,
        );
    }
    assert forall|text: Seq<char>, start: int, end: int|
        json::keyed(#[trigger] range_at(text, start, end)) by {
        let (a, b) = (position_at(text, start), position_at(text, end));
        json::law_objects_keep_their_fields_by_key(JsonView::object(), "start"@, a);
        json::law_objects_keep_their_fields_by_key(
            JsonView::object().with("start"@, a),
            "end"@,
            b,
        );
    }
}

/// The position that a JSON value is, if it is one. No file has a line past the
/// largest number a position can hold, and a character past it is past the end
/// of any line.
pub open spec fn position_in(value: JsonView) -> Option<Position> {
    match (value.get_u64("line"@), value.get_u64("character"@)) {
        (Some(line), Some(character)) => if line > u32::MAX {
            None
        } else if character > u32::MAX {
            Some(Position { line: line as u32, character: u32::MAX })
        } else {
            Some(Position { line: line as u32, character: character as u32 })
        },
        _ => None,
    }
}

pub fn read_position(value: &Json) -> (r: Option<Position>)
    ensures
        r == position_in(value@),
{
    match (value.get_u64("line"), value.get_u64("character")) {
        (Some(line), Some(character)) => if line > u32::MAX as u64 {
            None
        } else if character > u32::MAX as u64 {
            Some(Position::new(line as u32, u32::MAX))
        } else {
            Some(Position::new(line as u32, character as u32))
        },
        _ => None,
    }
}

/// The byte offset of a JSON position in a text.
pub open spec fn byte_offset_of(text: Seq<char>, value: JsonView) -> Option<int> {
    match position_in(value) {
        Some(position) => line_index::offset_of(text, position),
        None => None,
    }
}

/// The byte range of a JSON range in a text. One whose end comes first is none.
pub open spec fn byte_range_of(text: Seq<char>, value: JsonView) -> Option<(int, int)> {
    match (value.get("start"@), value.get("end"@)) {
        (Some(start), Some(end)) => match (
            byte_offset_of(text, start),
            byte_offset_of(text, end),
        ) {
            (Some(start), Some(end)) => if start <= end {
                Some((start, end))
            } else {
                None
            },
            _ => None,
        },
        _ => None,
    }
}

/// Whether a range of a text holds some other text.
pub open spec fn reads(text: Seq<char>, range: JsonView, held: Seq<char>) -> bool {
    match byte_range_of(text, range) {
        Some((start, end)) => text::cut(text, start, end) == held,
        None => false,
    }
}

/// A text with a byte range replaced.
pub open spec fn spliced(text: Seq<char>, start: int, end: int, new: Seq<char>) -> Seq<char> {
    text::cut(text, 0, start) + new + text::cut(text, end, text::bytes(text).len() as int)
}

/// A text after one change: all of it replaced, or the range that the change
/// names. A change without a text, or whose range does not resolve, is none.
pub open spec fn changed(text: Seq<char>, change: JsonView) -> Option<Seq<char>> {
    match (change.get_str("text"@), change.get("range"@)) {
        (Some(new), None) => Some(new),
        (Some(new), Some(range)) => match byte_range_of(text, range) {
            Some((start, end)) => Some(spliced(text, start, end, new)),
            None => None,
        },
        (None, _) => None,
    }
}

/// A text after a list of changes, those that do not apply left out.
pub open spec fn changed_by_all(text: Seq<char>, changes: Seq<JsonView>) -> Seq<char>
    decreases changes.len(),
{
    if changes.len() == 0 {
        text
    } else {
        let before = changed_by_all(text, changes.drop_last());
        match changed(before, changes.last()) {
            Some(after) => after,
            None => before,
        }
    }
}

/// Whether each of a list of changes applies in its turn.
pub open spec fn all_apply(text: Seq<char>, changes: Seq<JsonView>) -> bool
    decreases changes.len(),
{
    changes.len() > 0 ==> all_apply(text, changes.drop_last()) && changed(
        changed_by_all(text, changes.drop_last()),
        changes.last(),
    ) is Some
}

#[derive(Debug)]
pub struct Document {
    pub uri: String,
    pub version: i64,
    pub text: String,
    pub index: LineIndex,
}

impl Document {
    /// Whether the line index is the text's.
    pub open spec fn wf(self) -> bool {
        &&& self.index.of(self.text@)
        &&& self.index.wf()
    }

    pub fn new(uri: String, version: i64, text: String) -> (r: Self)
        ensures
            r.wf(),
            r.uri == uri,
            r.version == version,
            r.text == text,
    {
        let index = LineIndex::new(text.as_str());
        Self { uri, version, text, index }
    }

    /// Applies one `textDocument/didChange`.
    ///
    /// A change with no range replaces the document; one with a range splices.
    /// A range that will not resolve is refused rather than applied at a guess —
    /// a document silently out of step with the editor is worse than a dropped
    /// edit, because every position after it is then wrong.
    pub fn apply(&mut self, change: &Json) -> (r: bool)
        requires
            old(self).wf(),
        ensures
            final(self).wf(),
            final(self).uri == old(self).uri,
            final(self).version == old(self).version,
            r == (changed(old(self).text@, change@) is Some),
            final(self).text@ == match changed(old(self).text@, change@) {
                Some(after) => after,
                None => old(self).text@,
            },
    {
        let new = match change.get_str("text") {
            Some(new) => new,
            None => {
                return false;
            },
        };
        let after = match change.get("range") {
            None => new.to_owned(),
            Some(range) => match self.byte_range(range) {
                None => {
                    return false;
                },
                Some((start, end)) => splice(self.text.as_str(), start, end, new),
            },
        };
        let index = LineIndex::new(after.as_str());
        self.text = after;
        self.index = index;
        true
    }

    /// LSP range → byte range in this document.
    pub fn byte_range(&self, range: &Json) -> (r: Option<(usize, usize)>)
        requires
            self.wf(),
        ensures
            match (r, byte_range_of(self.text@, range@)) {
                (Some(a), Some(b)) => a.0 == b.0 && a.1 == b.1 && text::cuttable(
                    self.text@,
                    a.0 as int,
                    a.1 as int,
                ),
                (None, None) => true,
                _ => false,
            },
    {
        match (range.get("start"), range.get("end")) {
            (Some(start), Some(end)) => match (self.byte_offset(start), self.byte_offset(end)) {
                (Some(start), Some(end)) => if start <= end {
                    proof {
                        text::lemma_boundary_range(self.text@, end as int);
                    }
                    Some((start, end))
                } else {
                    None
                },
                _ => None,
            },
            _ => None,
        }
    }

    /// LSP position → byte offset.
    pub fn byte_offset(&self, position: &Json) -> (r: Option<usize>)
        requires
            self.wf(),
        ensures
            match (r, byte_offset_of(self.text@, position@)) {
                (Some(a), Some(b)) => a == b && text::boundary(self.text@, a as int),
                (None, None) => true,
                _ => false,
            },
    {
        match read_position(position) {
            Some(position) => self.index.offset(self.text.as_str(), position),
            None => None,
        }
    }

    /// Byte offset → LSP position, as JSON.
    pub fn position_at(&self, offset: usize) -> (r: Json)
        requires
            self.wf(),
        ensures
            r@ == position_at(self.text@, offset as int),
    {
        emit(self.index.position(self.text.as_str(), offset))
    }

    /// Byte range → LSP range, as JSON.
    pub fn range_at(&self, start: usize, end: usize) -> (r: Json)
        requires
            self.wf(),
        ensures
            r@ == range_at(self.text@, start as int, end as int),
    {
        Json::object().with("start", self.position_at(start)).with("end", self.position_at(end))
    }
}

/// A position, as JSON.
pub fn emit(position: Position) -> (r: Json)
    ensures
        r@ == position_json(position),
{
    Json::object().with("line", Json::number(position.line as u64)).with(
        "character",
        Json::number(position.character as u64),
    )
}

/// An edit that puts a text in place of a range, as JSON.
pub open spec fn edit_json(range: JsonView, new: Seq<char>) -> JsonView {
    JsonView::object().with("range"@, range).with("newText"@, JsonView::Text(new))
}

pub fn edit(range: Json, new: &str) -> (r: Json)
    ensures
        r@ == edit_json(range@, new@),
{
    Json::object().with("range", range).with("newText", Json::text(new))
}

/// Where an edit applies to a text, and what it puts there.
pub open spec fn edit_of(text: Seq<char>, edit: JsonView) -> Option<(int, int, Seq<char>)> {
    match (edit.get("range"@), edit.get_str("newText"@)) {
        (Some(range), Some(new)) => match byte_range_of(text, range) {
            Some((start, end)) => Some((start, end, new)),
            None => None,
        },
        _ => None,
    }
}

/// A text after edits, each past the one before it. All of them speak of the
/// text as it was: no edit moves the place of another.
pub open spec fn edited(text: Seq<char>, edits: Seq<JsonView>) -> Option<Seq<char>> {
    edited_from(text, 0, edits)
}

/// What stands from an offset on after them.
pub open spec fn edited_from(text: Seq<char>, from: int, edits: Seq<JsonView>) -> Option<Seq<char>>
    decreases edits.len(),
{
    if edits.len() == 0 {
        Some(text::cut(text, from, text::bytes(text).len() as int))
    } else {
        match edit_of(text, edits[0]) {
            Some((start, end, new)) => match edited_from(text, end, edits.drop_first()) {
                Some(rest) => if from <= start {
                    Some(text::cut(text, from, start) + new + rest)
                } else {
                    None
                },
                None => None,
            },
            None => None,
        }
    }
}

/// `text` with a byte range replaced.
pub fn splice(text: &str, start: usize, end: usize, new: &str) -> (r: String)
    requires
        text::cuttable(text@, start as int, end as int),
    ensures
        r@ == spliced(text@, start as int, end as int, new@),
{
    proof {
        text::lemma_boundary_ends(text@);
    }
    let mut out = slice(text, 0, start).to_owned();
    out.append(new);
    out.append(slice(text, end, length(text)));
    out
}

/// An open document, as plain values.
pub struct DocumentView {
    pub version: i64,
    pub text: Seq<char>,
}

#[derive(Debug)]
pub struct Documents {
    open: Vec<Document>,
}

/// Where a document is among some.
spec fn place_of(open: Seq<Document>, uri: Seq<char>) -> Option<int> {
    if exists|i: int| 0 <= i < open.len() && (#[trigger] open[i]).uri@ == uri {
        Some(choose|i: int| 0 <= i < open.len() && (#[trigger] open[i]).uri@ == uri)
    } else {
        None
    }
}

impl View for Documents {
    type V = Map<Seq<char>, DocumentView>;

    closed spec fn view(&self) -> Map<Seq<char>, DocumentView> {
        Map::new(
            |uri: Seq<char>| place_of(self.open@, uri) is Some,
            |uri: Seq<char>|
                {
                    let document = self.open@[place_of(self.open@, uri)->Some_0];
                    DocumentView { version: document.version, text: document.text@ }
                },
        )
    }
}

impl Documents {
    /// What a set of open documents keeps: no two of the same file, and every
    /// line index in step with its text.
    pub closed spec fn wf(self) -> bool {
        &&& forall|i: int, j: int|
            0 <= i < j < self.open@.len() ==> (#[trigger] self.open@[i]).uri@ != (
            #[trigger] self.open@[j]).uri@
        &&& forall|i: int| 0 <= i < self.open@.len() ==> (#[trigger] self.open@[i]).wf()
    }

    pub fn new() -> (r: Self)
        ensures
            r.wf(),
            r@ == Map::<Seq<char>, DocumentView>::empty(),
    {
        let r = Documents { open: Vec::new() };
        assert(r@ =~= Map::<Seq<char>, DocumentView>::empty());
        r
    }

    proof fn lemma_place(self, i: int)
        requires
            self.wf(),
            0 <= i < self.open@.len(),
        ensures
            place_of(self.open@, self.open@[i].uri@) == Some(i),
    {
        let j = place_of(self.open@, self.open@[i].uri@)->Some_0;
        if i < j {
            assert(self.open@[i].uri@ != self.open@[j].uri@);
        } else if j < i {
            assert(self.open@[j].uri@ != self.open@[i].uri@);
        }
    }

    fn find(&self, uri: &str) -> (r: Option<usize>)
        requires
            self.wf(),
        ensures
            r is Some <==> self@.contains_key(uri@),
            r matches Some(i) ==> {
                &&& i < self.open@.len()
                &&& self.open@[i as int].uri@ == uri@
                &&& place_of(self.open@, uri@) == Some(i as int)
                &&& self@[uri@] == (DocumentView {
                    version: self.open@[i as int].version,
                    text: self.open@[i as int].text@,
                })
            },
    {
        let mut i: usize = 0;
        while i < self.open.len()
            invariant
                self.wf(),
                i <= self.open@.len(),
                forall|j: int| 0 <= j < i ==> (#[trigger] self.open@[j]).uri@ != uri@,
            decreases self.open@.len() - i,
        {
            if same(self.open[i].uri.as_str(), uri) {
                proof {
                    self.lemma_place(i as int);
                }
                return Some(i);
            }
            i = i + 1;
        }
        None
    }

    pub fn open(&mut self, uri: String, version: i64, text: String)
        requires
            old(self).wf(),
        ensures
            final(self).wf(),
            final(self)@ == old(self)@.insert(uri@, DocumentView { version, text: text@ }),
    {
        let ghost before = *self;
        let ghost new = DocumentView { version, text: text@ };
        match self.find(uri.as_str()) {
            Some(i) => {
                let ghost name = uri@;
                self.open.set(i, Document::new(uri, version, text));
                proof {
                    assert forall|j: int| 0 <= j < self.open@.len() implies (
                    #[trigger] self.open@[j]).uri@ == before.open@[j].uri@ by {}
                    assert(self.wf());
                    self.lemma_same_places(before, name, i as int, new);
                }
            },
            None => {
                let ghost name = uri@;
                self.open.push(Document::new(uri, version, text));
                proof {
                    let n = before.open@.len() as int;
                    assert forall|j: int| 0 <= j < n implies (#[trigger] before.open@[j]).uri@
                        != name by {
                        before.lemma_place(j);
                    }
                    assert(self.wf());
                    assert forall|key: Seq<char>| self@.contains_key(key) == (before@.contains_key(
                        key,
                    ) || key == name) by {
                        if before@.contains_key(key) {
                            let j = place_of(before.open@, key)->Some_0;
                            assert(self.open@[j].uri@ == key);
                        }
                        if key == name {
                            assert(self.open@[n].uri@ == name);
                        }
                        if self@.contains_key(key) && key != name {
                            let j = place_of(self.open@, key)->Some_0;
                            assert(before.open@[j].uri@ == key);
                        }
                    }
                    assert forall|key: Seq<char>| #[trigger] self@.contains_key(key) implies self@[key]
                        == before@.insert(name, new)[key] by {
                        let j = place_of(self.open@, key)->Some_0;
                        if key != name {
                            before.lemma_place(j);
                        }
                    }
                    assert(self@ =~= before@.insert(name, new));
                }
            },
        }
    }

    /// Replacing one document leaves the others where they are.
    proof fn lemma_same_places(self, before: Self, uri: Seq<char>, i: int, new: DocumentView)
        requires
            before.wf(),
            self.wf(),
            0 <= i < before.open@.len(),
            before.open@[i].uri@ == uri,
            self.open@.len() == before.open@.len(),
            forall|j: int|
                0 <= j < self.open@.len() ==> (#[trigger] self.open@[j]).uri@ == before.open@[j].uri@,
            forall|j: int|
                0 <= j < self.open@.len() && j != i ==> #[trigger] self.open@[j] == before.open@[j],
            self.open@[i].version == new.version,
            self.open@[i].text@ == new.text,
        ensures
            self@ == before@.insert(uri, new),
    {
        assert forall|key: Seq<char>| self@.contains_key(key) == (before@.contains_key(key) || key
            == uri) by {
            if before@.contains_key(key) {
                let j = place_of(before.open@, key)->Some_0;
                assert(self.open@[j].uri@ == key);
            }
            if key == uri {
                assert(self.open@[i].uri@ == uri);
            }
            if self@.contains_key(key) {
                let j = place_of(self.open@, key)->Some_0;
                assert(before.open@[j].uri@ == key);
            }
        }
        assert forall|key: Seq<char>| #[trigger] self@.contains_key(key) implies self@[key]
            == before@.insert(uri, new)[key] by {
            let j = place_of(self.open@, key)->Some_0;
            before.lemma_place(j);
            before.lemma_place(i);
            self.lemma_place(i);
        }
        assert(self@ =~= before@.insert(uri, new));
    }

    pub fn close(&mut self, uri: &str)
        requires
            old(self).wf(),
        ensures
            final(self).wf(),
            final(self)@ == old(self)@.remove(uri@),
    {
        let ghost before = *self;
        match self.find(uri) {
            Some(i) => {
                let _ = self.open.remove(i);
                proof {
                    let at = i as int;
                    assert forall|j: int| 0 <= j < self.open@.len() implies #[trigger] self.open@[j]
                        == before.open@[if j < at {
                        j
                    } else {
                        j + 1
                    }] by {}
                    assert(self.wf());
                    assert forall|key: Seq<char>| self@.contains_key(key) == (before@.contains_key(
                        key,
                    ) && key != uri@) by {
                        if before@.contains_key(key) && key != uri@ {
                            let j = place_of(before.open@, key)->Some_0;
                            let k = if j < at {
                                j
                            } else {
                                j - 1
                            };
                            assert(self.open@[k].uri@ == key);
                        }
                        if self@.contains_key(key) {
                            let k = place_of(self.open@, key)->Some_0;
                            let j = if k < at {
                                k
                            } else {
                                k + 1
                            };
                            assert(before.open@[j].uri@ == key);
                            before.lemma_place(j);
                            before.lemma_place(at);
                        }
                    }
                    assert forall|key: Seq<char>| #[trigger] self@.contains_key(key) implies self@[key]
                        == before@[key] by {
                        let k = place_of(self.open@, key)->Some_0;
                        let j = if k < at {
                            k
                        } else {
                            k + 1
                        };
                        before.lemma_place(j);
                    }
                    assert(self@ =~= before@.remove(uri@));
                }
            },
            None => {
                assert(before@.remove(uri@) =~= before@);
            },
        }
    }

    pub fn get(&self, uri: &str) -> (r: Option<&Document>)
        requires
            self.wf(),
        ensures
            r is Some <==> self@.contains_key(uri@),
            r matches Some(document) ==> {
                &&& document.wf()
                &&& document.uri@ == uri@
                &&& self@[uri@] == (DocumentView { version: document.version, text: document.text@ })
            },
    {
        match self.find(uri) {
            Some(i) => Some(&self.open[i]),
            None => None,
        }
    }

    /// The document, to change in place. One that keeps its name and its line
    /// index in step takes the place of what was there.
    pub fn get_mut(&mut self, uri: &str) -> (r: Option<&mut Document>)
        requires
            old(self).wf(),
        ensures
            match r {
                Some(document) => {
                    &&& old(self)@.contains_key(uri@)
                    &&& document.wf()
                    &&& document.uri@ == uri@
                    &&& old(self)@[uri@] == (DocumentView {
                        version: document.version,
                        text: document.text@,
                    })
                    &&& final(document).wf() && final(document).uri@ == uri@ ==> {
                        &&& final(self).wf()
                        &&& final(self)@ == old(self)@.insert(
                            uri@,
                            DocumentView {
                                version: final(document).version,
                                text: final(document).text@,
                            },
                        )
                    }
                },
                None => !old(self)@.contains_key(uri@) && *final(self) == *old(self),
            },
    {
        let ghost before = *self;
        match self.find(uri) {
            Some(i) => {
                proof {
                    assert forall|after: Documents, document: Document|
                        #![trigger after@, document.wf()]
                        after.open@ == before.open@.update(i as int, document) && document.wf()
                            && document.uri@ == uri@ implies after.wf() && after@ == before@.insert(
                        uri@,
                        DocumentView { version: document.version, text: document.text@ },
                    ) by {
                        lemma_put_back(before, after, uri@, i as int, document);
                    }
                }
                Some(&mut self.open[i])
            },
            None => None,
        }
    }

    /// Every open document's URI, once each, in no particular order.
    pub fn uris(&self) -> (r: Vec<String>)
        requires
            self.wf(),
        ensures
            forall|i: int, j: int|
                0 <= i < j < r@.len() ==> (#[trigger] r@[i])@ != (#[trigger] r@[j])@,
            forall|uri: Seq<char>| #[trigger]
                self@.contains_key(uri) <==> exists|i: int|
                    0 <= i < r@.len() && (#[trigger] r@[i])@ == uri,
    {
        let mut out: Vec<String> = Vec::new();
        let mut i: usize = 0;
        while i < self.open.len()
            invariant
                self.wf(),
                i <= self.open@.len(),
                out@.len() == i,
                forall|j: int| 0 <= j < i ==> (#[trigger] out@[j])@ == self.open@[j].uri@,
            decreases self.open@.len() - i,
        {
            out.push(self.open[i].uri.clone());
            i = i + 1;
        }
        proof {
            assert forall|a: int, b: int| 0 <= a < b < out@.len() implies (#[trigger] out@[a])@ != (
            #[trigger] out@[b])@ by {
                assert(self.open@[a].uri@ != self.open@[b].uri@);
            }
            assert forall|uri: Seq<char>| #[trigger] self@.contains_key(uri) implies exists|i: int|
                0 <= i < out@.len() && (#[trigger] out@[i])@ == uri by {
                let j = place_of(self.open@, uri)->Some_0;
                assert(out@[j]@ == uri);
            }
            assert forall|uri: Seq<char>| (exists|i: int|
                0 <= i < out@.len() && (#[trigger] out@[i])@ == uri) implies
                #[trigger] self@.contains_key(uri) by {
                let j = choose|i: int| 0 <= i < out@.len() && (#[trigger] out@[i])@ == uri;
                assert(self.open@[j].uri@ == uri);
            }
        }
        out
    }

    /// Applies a `didChange`, returning whether every part of it landed.
    pub fn change(&mut self, uri: &str, version: i64, changes: &[Json]) -> (r: bool)
        requires
            old(self).wf(),
        ensures
            final(self).wf(),
            r == (old(self)@.contains_key(uri@) && all_apply(
                old(self)@[uri@].text,
                json::list_view(changes@),
            )),
            final(self)@ == if old(self)@.contains_key(uri@) {
                old(self)@.insert(
                    uri@,
                    DocumentView {
                        version,
                        text: changed_by_all(old(self)@[uri@].text, json::list_view(changes@)),
                    },
                )
            } else {
                old(self)@
            },
    {
        let ghost before = *self;
        let at: usize = match self.find(uri) {
            Some(at) => at,
            None => {
                return false;
            },
        };
        let mut document = self.open.remove(at);
        let ghost original = document.text@;
        let ghost all = json::list_view(changes@);
        let mut applied = true;
        let mut i: usize = 0;
        proof {
            json::lemma_list_view(changes@);
        }
        while i < changes.len()
            invariant
                i <= changes@.len(),
                all == json::list_view(changes@),
                all.len() == changes@.len(),
                forall|j: int| 0 <= j < changes@.len() ==> #[trigger] all[j] == changes@[j]@,
                document.wf(),
                document.uri == before.open@[at as int].uri,
                document.text@ == changed_by_all(original, all.take(i as int)),
                applied == all_apply(original, all.take(i as int)),
            decreases changes@.len() - i,
        {
            proof {
                assert(all.take(i + 1).drop_last() =~= all.take(i as int));
                assert(all.take(i + 1).last() == all[i as int]);
            }
            let landed = document.apply(&changes[i]);
            applied = applied && landed;
            i = i + 1;
        }
        assert(all.take(all.len() as int) =~= all);
        document.version = version;
        let ghost new = DocumentView { version, text: document.text@ };
        self.open.insert(at, document);
        proof {
            assert forall|j: int| 0 <= j < self.open@.len() && j != at implies
                #[trigger] self.open@[j] == before.open@[j] by {}
            assert forall|j: int| 0 <= j < self.open@.len() implies (#[trigger] self.open@[j]).uri@
                == before.open@[j].uri@ by {}
            assert(self.wf());
            self.lemma_same_places(before, uri@, at as int, new);
        }
        applied
    }
}

impl Default for Documents {
    fn default() -> (r: Self)
        ensures
            r.wf(),
            r@ == Map::<Seq<char>, DocumentView>::empty(),
    {
        Documents::new()
    }
}

/// Putting a document of the same name back in its place.
proof fn lemma_put_back(
    before: Documents,
    after: Documents,
    uri: Seq<char>,
    i: int,
    document: Document,
)
    requires
        before.wf(),
        0 <= i < before.open@.len(),
        before.open@[i].uri@ == uri,
        after.open@ == before.open@.update(i, document),
    ensures
        document.wf() && document.uri@ == uri ==> after.wf() && after@ == before@.insert(
            uri,
            DocumentView { version: document.version, text: document.text@ },
        ),
{
    if document.wf() && document.uri@ == uri {
        assert forall|j: int| 0 <= j < after.open@.len() implies (#[trigger] after.open@[j]).uri@
            == before.open@[j].uri@ by {}
        assert(after.wf());
        after.lemma_same_places(
            before,
            uri,
            i,
            DocumentView { version: document.version, text: document.text@ },
        );
    }
}

/// A JSON position reads back as itself.
pub proof fn lemma_position_in(position: Position)
    ensures
        position_in(position_json(position)) == Some(position),
        position_json(position)->Object_0.len() == 2,
        position_json(position).get("line"@) is Some,
        position_json(position).get("character"@) is Some,
        position_json(position).get("uri"@) is None,
        position_json(position).get("start"@) is None,
{
    reveal_strlit("line");
    reveal_strlit("character");
    reveal_strlit("uri");
    reveal_strlit("start");
    assert("line"@.len() == 4 && "character"@.len() == 9 && "uri"@.len() == 3 && "start"@.len()
        == 5);
    let empty = JsonView::object();
    let line = JsonView::number(position.line as u64);
    json::lemma_with(empty, "line"@, line);
    json::lemma_with(
        empty.with("line"@, line),
        "character"@,
        JsonView::number(position.character as u64),
    );
    assert((position.line as u64) as u32 == position.line);
    assert((position.character as u64) as u32 == position.character);
}

/// A range that JSON can say exactly is the same range when it is read again.
pub proof fn law_ranges_read_back(text: Seq<char>, start: int, end: int)
    requires
        line_index::addressable(text, start),
        line_index::addressable(text, end),
        start <= end,
    ensures
        byte_range_of(text, range_at(text, start, end)) == Some((start, end)),
{
    line_index::law_positions_round_trip(text, start);
    line_index::law_positions_round_trip(text, end);
    lemma_position_in(line_index::position_of(text, start));
    lemma_position_in(line_index::position_of(text, end));
    reveal_strlit("start");
    reveal_strlit("end");
    assert("start"@.len() == 5 && "end"@.len() == 3);
    let first = JsonView::object().with("start"@, position_at(text, start));
    json::lemma_with(JsonView::object(), "start"@, position_at(text, start));
    json::lemma_with(first, "end"@, position_at(text, end));
}

/// What an edit holds is what it was made of.
pub proof fn lemma_edit_fields(range: JsonView)
    ensures
        forall|new: Seq<char>|
            #![trigger edit_json(range, new)]
            edit_json(range, new).get("range"@) == Some(range) && edit_json(range, new).get_str(
                "newText"@,
            ) == Some(new),
{
    json::lemma_gets();
    reveal_strlit("range");
    reveal_strlit("newText");
    assert("range"@.len() == 5 && "newText"@.len() == 7);
}

/// An edit whose range JSON can say exactly is the same edit when it is read
/// again, and on its own it leaves every other part of the text as it was.
pub proof fn law_edits_read_back(text: Seq<char>, start: int, end: int, new: Seq<char>)
    requires
        line_index::addressable(text, start),
        line_index::addressable(text, end),
        start <= end,
    ensures
        ({
            let edit = edit_json(range_at(text, start, end), new);
            &&& edit_of(text, edit) == Some((start, end, new))
            &&& edited(text, seq![edit]) == Some(spliced(text, start, end, new))
        }),
{
    law_ranges_read_back(text, start, end);
    json::lemma_gets();
    reveal_strlit("range");
    reveal_strlit("newText");
    assert("range"@.len() == 5 && "newText"@.len() == 7);
    text::lemma_boundary_range(text, start);
    let edits = seq![edit_json(range_at(text, start, end), new)];
    assert(edits.drop_first() =~= Seq::empty());
    reveal_with_fuel(edited_from, 2);
}

/// Whether a text neither begins nor ends inside a line's terminator.
pub open spec fn kept_off_breaks(text: Seq<char>) -> bool {
    text.len() > 0 ==> text::bytes(text)[0] != 10 && text::bytes(text).last() != 13
}

/// Wherever such a text stands, a range can say its place.
pub proof fn lemma_sayable(text: Seq<char>, start: int, end: int)
    requires
        text::bytes(text).len() <= u32::MAX,
        text::cuttable(text, start, end),
        text::cut(text, start, end).len() > 0,
        kept_off_breaks(text::cut(text, start, end)),
    ensures
        line_index::addressable(text, start),
        line_index::addressable(text, end),
{
    text::lemma_cut(text, start, end);
    let part = text::cut(text, start, end);
    text::lemma_bytes_push(part.drop_last(), part.last());
    assert(part.drop_last().push(part.last()) =~= part);
    assert(start < end);
    assert(text::bytes(part)[0] == text::bytes(text)[start]);
    assert(text::bytes(part).last() == text::bytes(text)[end - 1]);
    line_index::lemma_addressable(text, start);
    line_index::lemma_addressable(text, end);
}

/// The edits that a workspace edit holds for a file.
pub open spec fn edits_for(answer: JsonView, uri: Seq<char>) -> Option<Seq<JsonView>> {
    match answer.get("changes"@) {
        Some(changes) => changes.get_array(uri),
        None => None,
    }
}

/// What an edit puts in place of a range is what stands there afterwards, and
/// nothing else has moved.
pub proof fn law_an_edit_replaces_its_range(text: Seq<char>, start: int, end: int, new: Seq<char>)
    requires
        text::cuttable(text, start, end),
    ensures
        ({
            let after = spliced(text, start, end, new);
            let n = text::bytes(new).len();
            &&& text::bytes(after).len() == text::bytes(text).len() - (end - start) + n
            &&& text::bytes(after).subrange(0, start) == text::bytes(text).subrange(0, start)
            &&& text::bytes(after).subrange(start, start + n) == text::bytes(new)
            &&& text::bytes(after).subrange(start + n, text::bytes(after).len() as int)
                == text::bytes(text).subrange(end, text::bytes(text).len() as int)
        }),
{
    let size = text::bytes(text).len() as int;
    text::lemma_boundary_ends(text);
    let head = text::cut(text, 0, start);
    let tail = text::cut(text, end, size);
    text::lemma_cut(text, 0, start);
    text::lemma_cut(text, end, size);
    text::lemma_bytes_concat(head, new);
    text::lemma_bytes_concat(head + new, tail);
    let after = text::bytes(spliced(text, start, end, new));
    let n = text::bytes(new).len();
    assert(after == text::bytes(head) + text::bytes(new) + text::bytes(tail));
    assert(after.subrange(0, start) =~= text::bytes(head));
    assert(after.subrange(start, start + n) =~= text::bytes(new));
    assert(after.subrange(start + n, after.len() as int) =~= text::bytes(tail));
}

} // verus!
