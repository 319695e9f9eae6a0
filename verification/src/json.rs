//! JSON values, as the protocol carries them.
//!
//! Messages stay values rather than becoming typed structs. That is deliberate:
//! most of what passes through here is forwarded to or from a stock luau-lsp,
//! and forwarding opaquely is what keeps us decoupled from its protocol surface.

use vstd::prelude::*;
use vstd::string::*;

use crate::text::{self, is_before, same};

verus! {

/// A JSON number.
#[derive(Debug, PartialEq, Eq)]
pub enum Number {
    Unsigned(u64),
    /// A negative whole number.
    Signed(i64),
    /// Any other, as it is written.
    Other(String),
}

/// A JSON value.
#[derive(Debug, PartialEq, Eq)]
pub enum Json {
    Null,
    Bool(bool),
    Number(Number),
    Text(String),
    Array(Vec<Json>),
    /// Fields by key: in byte order, and no two with the same one.
    Object(Vec<Field>),
}

#[derive(Debug, PartialEq, Eq)]
pub struct Field {
    pub key: String,
    pub value: Json,
}

/// A JSON number, as plain values.
pub enum NumberView {
    Unsigned(u64),
    Signed(i64),
    Other(Seq<char>),
}

/// A JSON value, as plain values.
#[verifier::ext_equal]
pub enum JsonView {
    Null,
    Bool(bool),
    Number(NumberView),
    Text(Seq<char>),
    Array(Seq<JsonView>),
    Object(Seq<(Seq<char>, JsonView)>),
}

impl View for Number {
    type V = NumberView;

    open spec fn view(&self) -> NumberView {
        match *self {
            Number::Unsigned(n) => NumberView::Unsigned(n),
            Number::Signed(n) => NumberView::Signed(n),
            Number::Other(text) => NumberView::Other(text@),
        }
    }
}

pub open spec fn json_view(value: Json) -> JsonView
    decreases value,
{
    match value {
        Json::Null => JsonView::Null,
        Json::Bool(b) => JsonView::Bool(b),
        Json::Number(n) => JsonView::Number(n@),
        Json::Text(text) => JsonView::Text(text@),
        Json::Array(items) => JsonView::Array(list_view(items@)),
        Json::Object(fields) => JsonView::Object(fields_view(fields@)),
    }
}

pub open spec fn list_view(items: Seq<Json>) -> Seq<JsonView>
    decreases items,
{
    if items.len() == 0 {
        Seq::empty()
    } else {
        list_view(items.drop_last()).push(json_view(items.last()))
    }
}

pub open spec fn fields_view(fields: Seq<Field>) -> Seq<(Seq<char>, JsonView)>
    decreases fields,
{
    if fields.len() == 0 {
        Seq::empty()
    } else {
        fields_view(fields.drop_last()).push((fields.last().key@, json_view(fields.last().value)))
    }
}

impl View for Json {
    type V = JsonView;

    open spec fn view(&self) -> JsonView {
        json_view(*self)
    }
}

pub proof fn lemma_list_view(items: Seq<Json>)
    ensures
        list_view(items).len() == items.len(),
        forall|i: int| 0 <= i < items.len() ==> #[trigger] list_view(items)[i] == items[i]@,
    decreases items.len(),
{
    if items.len() > 0 {
        lemma_list_view(items.drop_last());
    }
}

pub proof fn lemma_list_view_push(items: Seq<Json>, item: Json)
    ensures
        list_view(items.push(item)) == list_view(items).push(item@),
{
    assert(items.push(item).drop_last() =~= items);
}

pub proof fn lemma_fields_view(fields: Seq<Field>)
    ensures
        fields_view(fields).len() == fields.len(),
        forall|i: int|
            0 <= i < fields.len() ==> #[trigger] fields_view(fields)[i] == (
                fields[i].key@,
                fields[i].value@,
            ),
    decreases fields.len(),
{
    if fields.len() > 0 {
        lemma_fields_view(fields.drop_last());
    }
}

pub proof fn lemma_fields_view_push(fields: Seq<Field>, field: Field)
    ensures
        fields_view(fields.push(field)) == fields_view(fields).push((field.key@, field.value@)),
{
    assert(fields.push(field).drop_last() =~= fields);
}

/// The value of the first field with a key.
pub open spec fn lookup(fields: Seq<(Seq<char>, JsonView)>, key: Seq<char>) -> Option<JsonView>
    decreases fields.len(),
{
    if fields.len() == 0 {
        None
    } else if fields[0].0 == key {
        Some(fields[0].1)
    } else {
        lookup(fields.drop_first(), key)
    }
}

/// Fields with a value put in under a key: in place of the one that is there, or
/// else before the first whose key comes after it.
pub open spec fn put(
    fields: Seq<(Seq<char>, JsonView)>,
    key: Seq<char>,
    value: JsonView,
) -> Seq<(Seq<char>, JsonView)>
    decreases fields.len(),
{
    if fields.len() == 0 {
        seq![(key, value)]
    } else if fields[0].0 == key {
        seq![(key, value)] + fields.drop_first()
    } else if text::precedes(key, fields[0].0) {
        seq![(key, value)] + fields
    } else {
        seq![fields[0]] + put(fields.drop_first(), key, value)
    }
}

/// Whether the keys of fields come in byte order, each once.
pub open spec fn sorted(fields: Seq<(Seq<char>, JsonView)>) -> bool {
    forall|i: int, j: int|
        #![trigger fields[i], fields[j]]
        0 <= i < j < fields.len() ==> text::precedes(fields[i].0, fields[j].0)
}

/// What every value keeps: the fields of each object in it come by key, so that
/// there is one way to write an object down.
pub open spec fn keyed(value: JsonView) -> bool
    decreases value,
{
    match value {
        JsonView::Array(items) => forall|i: int|
            0 <= i < items.len() ==> keyed(#[trigger] items[i]),
        JsonView::Object(fields) => sorted(fields) && forall|i: int|
            #![trigger fields[i]]
            0 <= i < fields.len() ==> keyed(fields[i].1),
        _ => true,
    }
}

/// What is put in is what is found, and nothing else is found otherwise.
pub proof fn lemma_put(
    fields: Seq<(Seq<char>, JsonView)>,
    key: Seq<char>,
    value: JsonView,
    sought: Seq<char>,
)
    ensures
        lookup(put(fields, key, value), sought) == if sought == key {
            Some(value)
        } else {
            lookup(fields, sought)
        },
        lookup(fields, key) is None ==> put(fields, key, value).len() == fields.len() + 1,
    decreases fields.len(),
{
    let all = put(fields, key, value);
    if fields.len() == 0 {
        assert(all.drop_first() =~= fields);
    } else if fields[0].0 == key {
        assert(all.drop_first() =~= fields.drop_first());
    } else if text::precedes(key, fields[0].0) {
        assert(all.drop_first() =~= fields);
    } else {
        lemma_put(fields.drop_first(), key, value, sought);
        assert(all.drop_first() =~= put(fields.drop_first(), key, value));
    }
}

impl JsonView {
    /// An object with no fields.
    pub open spec fn object() -> JsonView {
        JsonView::Object(Seq::empty())
    }

    /// A whole number.
    pub open spec fn number(n: u64) -> JsonView {
        JsonView::Number(NumberView::Unsigned(n))
    }

    /// An object with a value under a key, in place of one that is there.
    pub open spec fn with(self, key: Seq<char>, value: JsonView) -> JsonView {
        match self {
            JsonView::Object(fields) => JsonView::Object(put(fields, key, value)),
            other => other,
        }
    }

    /// A field of an object; nothing of anything else.
    pub open spec fn get(self, key: Seq<char>) -> Option<JsonView> {
        match self {
            JsonView::Object(fields) => lookup(fields, key),
            _ => None,
        }
    }

    pub open spec fn str(self) -> Option<Seq<char>> {
        match self {
            JsonView::Text(text) => Some(text),
            _ => None,
        }
    }

    pub open spec fn u64(self) -> Option<u64> {
        match self {
            JsonView::Number(NumberView::Unsigned(n)) => Some(n),
            _ => None,
        }
    }

    pub open spec fn array(self) -> Option<Seq<JsonView>> {
        match self {
            JsonView::Array(items) => Some(items),
            _ => None,
        }
    }

    /// A text field of an object.
    pub open spec fn get_str(self, key: Seq<char>) -> Option<Seq<char>> {
        match self.get(key) {
            Some(value) => value.str(),
            None => None,
        }
    }

    pub open spec fn get_u64(self, key: Seq<char>) -> Option<u64> {
        match self.get(key) {
            Some(value) => value.u64(),
            None => None,
        }
    }

    pub open spec fn get_array(self, key: Seq<char>) -> Option<Seq<JsonView>> {
        match self.get(key) {
            Some(value) => value.array(),
            None => None,
        }
    }
}

/// Whether a reference that may be missing is to the value promised.
pub open spec fn same_value(value: Option<&Json>, promised: Option<JsonView>) -> bool {
    match (value, promised) {
        (Some(a), Some(b)) => a@ == b,
        (None, None) => true,
        _ => false,
    }
}

/// Whether a string that may be missing is the text promised.
pub open spec fn same_text(text: Option<&str>, promised: Option<Seq<char>>) -> bool {
    match (text, promised) {
        (Some(a), Some(b)) => a@ == b,
        (None, None) => true,
        _ => false,
    }
}

impl Json {
    /// A field of an object; nothing of anything else.
    pub fn get(&self, key: &str) -> (r: Option<&Json>)
        ensures
            same_value(r, self@.get(key@)),
            r matches Some(value) ==> decreases_to!(self => value),
    {
        match self {
            Json::Object(fields) => {
                let ghost all = fields_view(fields@);
                let mut i: usize = 0;
                proof {
                    lemma_fields_view(fields@);
                    assert(all.skip(0) =~= all);
                }
                while i < fields.len()
                    invariant
                        i <= fields@.len(),
                        *self == Json::Object(*fields),
                        all == fields_view(fields@),
                        all.len() == fields@.len(),
                        forall|j: int|
                            0 <= j < fields@.len() ==> #[trigger] all[j] == (
                                fields@[j].key@,
                                fields@[j].value@,
                            ),
                        lookup(all, key@) == lookup(all.skip(i as int), key@),
                    decreases fields@.len() - i,
                {
                    proof {
                        assert(all.skip(i as int)[0] == all[i as int]);
                        assert(all.skip(i as int).drop_first() =~= all.skip(i + 1));
                        assert(decreases_to!(self => self->Object_0@[i as int]));
                    }
                    if same(fields[i].key.as_str(), key) {
                        return Some(&fields[i].value);
                    }
                    i = i + 1;
                }
                None
            },
            _ => None,
        }
    }

    pub fn as_str(&self) -> (r: Option<&str>)
        ensures
            same_text(r, self@.str()),
    {
        match self {
            Json::Text(text) => Some(text.as_str()),
            _ => None,
        }
    }

    pub fn as_u64(&self) -> (r: Option<u64>)
        ensures
            r == self@.u64(),
    {
        match self {
            Json::Number(Number::Unsigned(n)) => Some(*n),
            _ => None,
        }
    }

    pub fn as_array(&self) -> (r: Option<&Vec<Json>>)
        ensures
            match (r, self@.array()) {
                (Some(items), Some(views)) => list_view(items@) == views,
                (None, None) => true,
                _ => false,
            },
    {
        match self {
            Json::Array(items) => Some(items),
            _ => None,
        }
    }

    pub fn get_str(&self, key: &str) -> (r: Option<&str>)
        ensures
            same_text(r, self@.get_str(key@)),
    {
        match self.get(key) {
            Some(value) => value.as_str(),
            None => None,
        }
    }

    pub fn get_u64(&self, key: &str) -> (r: Option<u64>)
        ensures
            r == self@.get_u64(key@),
    {
        match self.get(key) {
            Some(value) => value.as_u64(),
            None => None,
        }
    }

    pub fn get_array(&self, key: &str) -> (r: Option<&Vec<Json>>)
        ensures
            match (r, self@.get_array(key@)) {
                (Some(items), Some(views)) => list_view(items@) == views,
                (None, None) => true,
                _ => false,
            },
    {
        match self.get(key) {
            Some(value) => value.as_array(),
            None => None,
        }
    }

    /// The same value again.
    pub fn copy(&self) -> (r: Json)
        ensures
            r@ == self@,
        decreases self,
    {
        match self {
            Json::Null => Json::Null,
            Json::Bool(b) => Json::Bool(*b),
            Json::Number(n) => Json::Number(
                match n {
                    Number::Unsigned(n) => Number::Unsigned(*n),
                    Number::Signed(n) => Number::Signed(*n),
                    Number::Other(text) => Number::Other(text.clone()),
                },
            ),
            Json::Text(text) => Json::Text(text.clone()),
            Json::Array(items) => {
                let mut out: Vec<Json> = Vec::new();
                let mut i: usize = 0;
                while i < items.len()
                    invariant
                        i <= items@.len(),
                        *self == Json::Array(*items),
                        list_view(out@) == list_view(items@.take(i as int)),
                    decreases items@.len() - i,
                {
                    proof {
                        assert(items@.take(i + 1).drop_last() =~= items@.take(i as int));
                        assert(items@.take(i + 1).last() == items@[i as int]);
                        assert(decreases_to!(self => self->Array_0@[i as int]));
                    }
                    let item = items[i].copy();
                    proof {
                        lemma_list_view_push(out@, item);
                    }
                    out.push(item);
                    i = i + 1;
                }
                assert(items@.take(items@.len() as int) =~= items@);
                Json::Array(out)
            },
            Json::Object(fields) => {
                let mut out: Vec<Field> = Vec::new();
                let mut i: usize = 0;
                while i < fields.len()
                    invariant
                        i <= fields@.len(),
                        *self == Json::Object(*fields),
                        fields_view(out@) == fields_view(fields@.take(i as int)),
                    decreases fields@.len() - i,
                {
                    proof {
                        assert(fields@.take(i + 1).drop_last() =~= fields@.take(i as int));
                        assert(fields@.take(i + 1).last() == fields@[i as int]);
                        assert(decreases_to!(self => self->Object_0@[i as int]));
                    }
                    let field = Field { key: fields[i].key.clone(), value: fields[i].value.copy() };
                    proof {
                        lemma_fields_view_push(out@, field);
                    }
                    out.push(field);
                    i = i + 1;
                }
                assert(fields@.take(fields@.len() as int) =~= fields@);
                Json::Object(out)
            },
        }
    }

    /// A text.
    pub fn text(text: &str) -> (r: Json)
        ensures
            r@ == JsonView::Text(text@),
    {
        Json::Text(text.to_owned())
    }

    /// A whole number.
    pub fn number(n: u64) -> (r: Json)
        ensures
            r@ == JsonView::number(n),
    {
        Json::Number(Number::Unsigned(n))
    }

    /// An object with no fields.
    pub fn object() -> (r: Json)
        ensures
            r@ == JsonView::object(),
    {
        Json::Object(Vec::new())
    }

    /// An object with a value under a key, in place of one that is there;
    /// anything else as it is.
    pub fn with(self, key: &str, value: Json) -> (r: Json)
        ensures
            r@ == self@.with(key@, value@),
    {
        match self {
            Json::Object(fields) => {
                let mut fields = fields;
                let ghost all = fields_view(fields@);
                let ghost new = (key@, value@);
                let mut i: usize = 0;
                proof {
                    lemma_fields_view(fields@);
                    assert(all.skip(0) =~= all);
                    assert(put(all, key@, value@) =~= all.take(0) + put(
                        all.skip(0),
                        key@,
                        value@,
                    ));
                }
                while i < fields.len() && !same(fields[i].key.as_str(), key) && !is_before(
                    key,
                    fields[i].key.as_str(),
                )
                    invariant
                        i <= fields@.len(),
                        all == fields_view(fields@),
                        all.len() == fields@.len(),
                        forall|j: int|
                            0 <= j < fields@.len() ==> #[trigger] all[j] == (
                                fields@[j].key@,
                                fields@[j].value@,
                            ),
                        put(all, key@, value@) == all.take(i as int) + put(
                            all.skip(i as int),
                            key@,
                            value@,
                        ),
                    decreases fields@.len() - i,
                {
                    proof {
                        let rest = all.skip(i as int);
                        assert(rest[0] == all[i as int]);
                        assert(rest.drop_first() =~= all.skip(i + 1));
                        assert(all.take(i as int) + (seq![rest[0]] + put(
                            all.skip(i + 1),
                            key@,
                            value@,
                        )) =~= all.take(i + 1) + put(all.skip(i + 1), key@, value@));
                    }
                    i = i + 1;
                }
                let ghost before = fields@;
                let found = i < fields.len() && same(fields[i].key.as_str(), key);
                if found {
                    fields.remove(i);
                }
                fields.insert(i, Field { key: key.to_owned(), value });
                proof {
                    let rest = all.skip(i as int);
                    lemma_fields_view(fields@);
                    if i < before.len() {
                        assert(rest[0] == all[i as int]);
                    }
                    if found {
                        assert(fields_view(fields@) =~= all.take(i as int) + (seq![new]
                            + rest.drop_first()));
                    } else {
                        assert(fields_view(fields@) =~= all.take(i as int) + (seq![new] + rest));
                        if rest.len() == 0 {
                            assert(seq![new] + rest =~= seq![new]);
                        }
                    }
                }
                Json::Object(fields)
            },
            other => other,
        }
    }

    /// A list of one.
    pub fn only(value: Json) -> (r: Json)
        ensures
            r@ == JsonView::Array(seq![value@]),
    {
        let mut items: Vec<Json> = Vec::new();
        proof {
            lemma_list_view_push(items@, value);
        }
        items.push(value);
        Json::Array(items)
    }
}

/// Putting a value in keeps fields by key.
pub proof fn lemma_put_sorted(fields: Seq<(Seq<char>, JsonView)>, key: Seq<char>, value: JsonView)
    requires
        sorted(fields),
    ensures
        sorted(put(fields, key, value)),
        forall|i: int|
            #![trigger put(fields, key, value)[i]]
            0 <= i < put(fields, key, value).len() ==> put(fields, key, value)[i] == (key, value)
                || exists|j: int|
                0 <= j < fields.len() && #[trigger] fields[j] == put(fields, key, value)[i],
    decreases fields.len(),
{
    let all = put(fields, key, value);
    if fields.len() == 0 {
    } else if fields[0].0 == key || text::precedes(key, fields[0].0) {
        let rest = if fields[0].0 == key {
            fields.drop_first()
        } else {
            fields
        };
        let skipped = fields.len() - rest.len();
        assert(all =~= seq![(key, value)] + rest);
        assert forall|i: int| #![trigger all[i]] 0 < i < all.len() implies all[i]
            == fields[i - 1 + skipped] && text::precedes(key, all[i].0) by {
            let j = i - 1 + skipped;
            if j > 0 {
                assert(text::precedes(fields[0].0, fields[j].0));
                text::lemma_precedes(key, fields[0].0, fields[j].0);
            }
        }
        assert forall|i: int, j: int|
            #![trigger all[i], all[j]]
            0 <= i < j < all.len() implies text::precedes(all[i].0, all[j].0) by {
            if i > 0 {
                assert(text::precedes(fields[i - 1 + skipped].0, fields[j - 1 + skipped].0));
            }
        }
    } else {
        let rest = fields.drop_first();
        assert forall|i: int, j: int|
            #![trigger rest[i], rest[j]]
            0 <= i < j < rest.len() implies text::precedes(rest[i].0, rest[j].0) by {
            assert(text::precedes(fields[i + 1].0, fields[j + 1].0));
        }
        lemma_put_sorted(rest, key, value);
        let more = put(rest, key, value);
        assert(all =~= seq![fields[0]] + more);
        text::lemma_precedes(key, fields[0].0, key);
        assert forall|i: int| #![trigger more[i]] 0 <= i < more.len() implies text::precedes(
            fields[0].0,
            more[i].0,
        ) && (more[i] == (key, value) || exists|j: int|
            0 <= j < fields.len() && #[trigger] fields[j] == more[i]) by {
            if more[i] != (key, value) {
                let j = choose|j: int| 0 <= j < rest.len() && #[trigger] rest[j] == more[i];
                assert(fields[j + 1] == more[i]);
                assert(text::precedes(fields[0].0, fields[j + 1].0));
            }
        }
        assert forall|i: int, j: int|
            #![trigger all[i], all[j]]
            0 <= i < j < all.len() implies text::precedes(all[i].0, all[j].0) by {
            assert(all[j] == more[j - 1]);
            if i > 0 {
                assert(all[i] == more[i - 1]);
                assert(text::precedes(more[i - 1].0, more[j - 1].0));
            }
        }
        assert forall|i: int| #![trigger all[i]] 0 <= i < all.len() implies all[i] == (key, value)
            || exists|j: int| 0 <= j < fields.len() && #[trigger] fields[j] == all[i] by {
            if i == 0 {
                assert(all[0] == fields[0]);
            } else {
                assert(all[i] == more[i - 1]);
            }
        }
    }
}

/// An object that keeps its fields by key still does with one more value, and
/// which value is under a key does not depend on the order in which they came.
pub proof fn law_objects_keep_their_fields_by_key(value: JsonView, key: Seq<char>, one: JsonView)
    requires
        keyed(value),
        keyed(one),
    ensures
        keyed(value.with(key, one)),
        value is Object ==> forall|sought: Seq<char>| #[trigger]
            value.with(key, one).get(sought) == if sought == key {
                Some(one)
            } else {
                value.get(sought)
            },
{
    if let JsonView::Object(fields) = value {
        lemma_put_sorted(fields, key, one);
        let all = put(fields, key, one);
        assert forall|i: int| #![trigger all[i]] 0 <= i < all.len() implies keyed(all[i].1) by {
            if all[i] != (key, one) {
                let j = choose|j: int| 0 <= j < fields.len() && #[trigger] fields[j] == all[i];
                assert(keyed(fields[j].1));
            }
        }
        lemma_with(value, key, one);
    }
}

/// What is found in an object with one more value.
pub proof fn lemma_with(value: JsonView, key: Seq<char>, one: JsonView)
    requires
        value is Object,
    ensures
        forall|sought: Seq<char>| #[trigger]
            value.with(key, one).get(sought) == if sought == key {
                Some(one)
            } else {
                value.get(sought)
            },
        value.get(key) is None ==> value.with(key, one)->Object_0.len() == value->Object_0.len()
            + 1,
{
    assert forall|sought: Seq<char>| #[trigger]
        value.with(key, one).get(sought) == if sought == key {
            Some(one)
        } else {
            value.get(sought)
        } by {
        lemma_put(value->Object_0, key, one, sought);
    }
    lemma_put(value->Object_0, key, one, key);
}

/// The same of every object.
pub proof fn lemma_gets()
    ensures
        forall|value: JsonView, key: Seq<char>, one: JsonView, sought: Seq<char>|
            value is Object ==> #[trigger] value.with(key, one).get(sought) == if sought == key {
                Some(one)
            } else {
                value.get(sought)
            },
{
    assert forall|value: JsonView, key: Seq<char>, one: JsonView, sought: Seq<char>|
        value is Object implies #[trigger] value.with(key, one).get(sought) == if sought == key {
        Some(one)
    } else {
        value.get(sought)
    } by {
        lemma_with(value, key, one);
    }
}

/// Two objects that keep their fields by key and hold the same are the same.
pub proof fn law_objects_are_equal_by_key(
    a: Seq<(Seq<char>, JsonView)>,
    b: Seq<(Seq<char>, JsonView)>,
)
    requires
        sorted(a),
        sorted(b),
        forall|key: Seq<char>| #[trigger] lookup(a, key) == lookup(b, key),
    ensures
        a == b,
    decreases a.len(),
{
    if a.len() > 0 {
        assert(lookup(a, a[0].0) == Some(a[0].1));
        lemma_first_is_least(b, a[0].0);
    }
    if b.len() > 0 {
        assert(lookup(b, b[0].0) == Some(b[0].1));
        lemma_first_is_least(a, b[0].0);
    }
    if a.len() > 0 && b.len() > 0 {
        text::lemma_precedes(a[0].0, b[0].0, a[0].0);
        let x = a.drop_first();
        let y = b.drop_first();
        lemma_rest_sorted(a);
        lemma_rest_sorted(b);
        assert forall|key: Seq<char>| #[trigger] lookup(x, key) == lookup(y, key) by {
            assert(lookup(a, key) == lookup(b, key));
            if key == a[0].0 {
                lemma_not_after(a, key);
                lemma_not_after(b, key);
            }
        }
        law_objects_are_equal_by_key(x, y);
        assert(a =~= seq![a[0]] + x);
        assert(b =~= seq![b[0]] + y);
    } else {
        assert(a =~= b);
    }
}

/// Nothing that comes before the first key is found.
proof fn lemma_first_is_least(fields: Seq<(Seq<char>, JsonView)>, key: Seq<char>)
    requires
        sorted(fields),
        lookup(fields, key) is Some,
    ensures
        fields.len() > 0,
        !text::precedes(key, fields[0].0),
    decreases fields.len(),
{
    text::lemma_precedes(key, fields[0].0, key);
    if fields[0].0 != key {
        lemma_rest_sorted(fields);
        lemma_first_is_least(fields.drop_first(), key);
        assert(fields.drop_first()[0] == fields[1]);
        assert(text::precedes(fields[0].0, fields[1].0));
        text::lemma_precedes(key, fields[0].0, fields[1].0);
    }
}

/// The first key is not found again past the first field.
proof fn lemma_not_after(fields: Seq<(Seq<char>, JsonView)>, key: Seq<char>)
    requires
        sorted(fields),
        fields.len() > 0,
        fields[0].0 == key,
    ensures
        lookup(fields.drop_first(), key) is None,
{
    if lookup(fields.drop_first(), key) is Some {
        lemma_rest_sorted(fields);
        lemma_first_is_least(fields.drop_first(), key);
        assert(fields.drop_first()[0] == fields[1]);
        assert(text::precedes(fields[0].0, fields[1].0));
    }
}

proof fn lemma_rest_sorted(fields: Seq<(Seq<char>, JsonView)>)
    requires
        sorted(fields),
        fields.len() > 0,
    ensures
        sorted(fields.drop_first()),
{
    let rest = fields.drop_first();
    assert forall|i: int, j: int|
        #![trigger rest[i], rest[j]]
        0 <= i < j < rest.len() implies text::precedes(rest[i].0, rest[j].0) by {
        assert(text::precedes(fields[i + 1].0, fields[j + 1].0));
    }
}

} // verus!
