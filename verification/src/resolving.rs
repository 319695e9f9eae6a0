//! What the names in a tree stand for.
//!
//! A tag is a Roblox class or a component, and an attribute on a class is one
//! of its members. The project's settings decide first, then Roblox's tables,
//! then what the file binds — the compiler's own order.

use vstd::prelude::*;
use vstd::string::*;

use luaux::config::Config;

use crate::classes::{self, has_property, is_class, is_event};
use crate::luau;
use crate::naming::{self, NamedView};
use crate::pieces::{self, split_once};
use crate::regions;
use crate::settings::{self, resolve_element, resolve_property, Claim};
use crate::syntax::{
    self, ElementNode, FragmentNode, Hole, Item, Markup, Meaning, Nested, Prop, PropValue, TagName,
};
use crate::text::{self, same, starts_with};

verus! {

/// The names that a blanked file binds.
pub uninterp spec fn bound_in(blanked: Seq<char>) -> Set<Seq<char>>;

/// What stands for a character of a region: `nil` for those at its first three
/// bytes, a space for every byte of any other. Line feeds stay.
pub open spec fn stand_in(c: char, index: int) -> Seq<char> {
    if c == '\n' {
        seq!['\n']
    } else if index == 0 {
        seq!['n']
    } else if index == 1 {
        seq!['i']
    } else if index == 2 {
        seq!['l']
    } else {
        Seq::new(vstd::utf8::encode_scalar(c as u32).len(), |i: int| ' ')
    }
}

/// What stands for a region, from one of its bytes on.
pub open spec fn filler(region: Seq<char>, index: int) -> Seq<char>
    decreases region.len(),
{
    if region.len() == 0 {
        Seq::empty()
    } else {
        stand_in(region[0], index) + filler(
            region.drop_first(),
            index + vstd::utf8::encode_scalar(region[0] as u32).len(),
        )
    }
}

/// A file from an offset on, with each span replaced by filler that reads as
/// Luau. A span that begins before the one ahead of it ends is left out.
pub open spec fn blanked_from(
    source: Seq<char>,
    spans: Seq<(usize, usize)>,
    cursor: int,
) -> Seq<char>
    decreases spans.len(),
{
    if spans.len() == 0 {
        text::cut(source, cursor, text::bytes(source).len() as int)
    } else {
        let (start, end) = spans[0];
        if start < cursor {
            blanked_from(source, spans.drop_first(), cursor)
        } else {
            text::cut(source, cursor, start as int) + filler(
                text::cut(source, start as int, end as int),
                0,
            ) + blanked_from(source, spans.drop_first(), end as int)
        }
    }
}

/// A file with each span replaced by filler that reads as Luau.
pub open spec fn blanked(source: Seq<char>, spans: Seq<(usize, usize)>) -> Seq<char> {
    blanked_from(source, spans, 0)
}

/// Whether filler is as long as the region it stands for: no character at the
/// first three bytes takes more than one.
pub open spec fn even(region: Seq<char>, index: int) -> bool
    decreases region.len(),
{
    region.len() == 0 || {
        let width = vstd::utf8::encode_scalar(region[0] as u32).len();
        (index >= 3 || width == 1) && even(region.drop_first(), index + width)
    }
}

/// The byte that stands for one byte of a region.
pub open spec fn patch(b: u8, index: int) -> u8 {
    if b == 10 {
        10
    } else if index == 0 {
        110
    } else if index == 1 {
        105
    } else if index == 2 {
        108
    } else {
        32
    }
}

/// One character in bytes.
proof fn lemma_one(c: char)
    ensures
        text::bytes(seq![c]) == vstd::utf8::encode_scalar(c as u32),
        text::bytes(seq![c]).len() >= 1,
        forall|k: int|
            0 <= k < text::bytes(seq![c]).len() ==> (#[trigger] text::bytes(seq![c])[k] == 10 <==> c
                == '\n'),
{
    text::lemma_bytes_push(Seq::<char>::empty(), c);
    assert(Seq::<char>::empty().push(c) =~= seq![c]);
    assert(text::bytes(Seq::<char>::empty()) =~= Seq::<u8>::empty());
    assert(text::bytes(seq![c]) =~= vstd::utf8::encode_scalar(c as u32));
    vstd::utf8::encode_utf8_first_scalar(seq![c]);
    if (c as u32) < 0x80 {
        assert(vstd::utf8::is_ascii_chars(seq![c]));
        vstd::utf8::is_ascii_chars_encode_utf8(seq![c]);
        assert(text::bytes(seq![c]) =~= seq![c as u8]);
    }
}

/// Filler is never longer than its region, and where it is as long, every byte
/// of it stands for one.
proof fn lemma_filler(region: Seq<char>, index: int)
    requires
        index >= 0,
    ensures
        text::bytes(filler(region, index)).len() <= text::bytes(region).len(),
        even(region, index) ==> text::bytes(filler(region, index)).len() == text::bytes(
            region,
        ).len() && forall|k: int|
            0 <= k < text::bytes(region).len() ==> #[trigger] text::bytes(filler(region, index))[k]
                == patch(text::bytes(region)[k], index + k),
    decreases region.len(),
{
    if region.len() == 0 {
    } else {
        let c = region[0];
        let rest = region.drop_first();
        let width = vstd::utf8::encode_scalar(c as u32).len();
        let one = stand_in(c, index);
        assert(region =~= seq![c] + rest);
        text::lemma_bytes_concat(seq![c], rest);
        text::lemma_bytes_concat(one, filler(rest, index + width));
        lemma_one(c);
        lemma_filler(rest, index + width);
        assert(vstd::utf8::is_ascii_chars(one));
        vstd::utf8::is_ascii_chars_encode_utf8(one);
        if even(region, index) {
            let (f, b) = (text::bytes(filler(region, index)), text::bytes(region));
            assert forall|k: int| 0 <= k < b.len() implies #[trigger] f[k] == patch(
                b[k],
                index + k,
            ) by {
                if k < width {
                    let d = text::bytes(seq![c])[k];
                    assert(b[k] == d);
                    assert(f[k] == text::bytes(one)[k]);
                    assert(text::bytes(one)[k] == one[k] as u8);
                    assert(d == 10 <==> c == '\n');
                } else {
                    assert(f[k] == text::bytes(filler(rest, index + width))[k - width]);
                }
            }
        }
    }
}

/// Whether spans can be cut out of a source, one after the other.
pub open spec fn in_turn(source: Seq<char>, spans: Seq<(usize, usize)>, cursor: int) -> bool {
    &&& forall|i: int|
        #![trigger spans[i]]
        0 <= i < spans.len() ==> cursor <= spans[i].0 < spans[i].1 && text::cuttable(
            source,
            spans[i].0 as int,
            spans[i].1 as int,
        )
    &&& forall|i: int, j: int|
        #![trigger spans[i], spans[j]]
        0 <= i < j < spans.len() ==> spans[i].1 <= spans[j].0
}

/// What is blanked never gets longer.
pub proof fn lemma_blanked_length(source: Seq<char>, spans: Seq<(usize, usize)>, cursor: int)
    requires
        in_turn(source, spans, cursor),
        text::boundary(source, cursor),
    ensures
        text::bytes(blanked_from(source, spans, cursor)).len() <= text::bytes(source).len()
            - cursor,
    decreases spans.len(),
{
    let s = text::bytes(source);
    text::lemma_boundary_range(source, cursor);
    text::lemma_boundary_ends(source);
    if spans.len() == 0 {
        text::lemma_cut(source, cursor, s.len() as int);
    } else {
        let (start, end) = spans[0];
        let rest = spans.drop_first();
        lemma_rest_in_turn(source, spans, cursor);
        lemma_blanked_length(source, rest, end as int);
        let head = text::cut(source, cursor, start as int);
        let region = text::cut(source, start as int, end as int);
        text::lemma_cut(source, cursor, start as int);
        text::lemma_cut(source, start as int, end as int);
        lemma_filler(region, 0);
        text::lemma_bytes_concat(head, filler(region, 0));
        text::lemma_bytes_concat(
            head + filler(region, 0),
            blanked_from(source, rest, end as int),
        );
    }
}

proof fn lemma_rest_in_turn(source: Seq<char>, spans: Seq<(usize, usize)>, cursor: int)
    requires
        in_turn(source, spans, cursor),
        spans.len() > 0,
    ensures
        in_turn(source, spans.drop_first(), spans[0].1 as int),
{
    let rest = spans.drop_first();
    assert forall|i: int| #![trigger rest[i]] 0 <= i < rest.len() implies rest[i] == spans[i + 1]
        && spans[0].1 <= rest[i].0 by {}
}

/// Up to a place that only even spans come before, what is blanked keeps its
/// offsets: what is in no span stays as it is, and the rest is filler.
pub proof fn lemma_blanked(source: Seq<char>, spans: Seq<(usize, usize)>, cursor: int, p: int)
    requires
        in_turn(source, spans, cursor),
        text::boundary(source, cursor),
        cursor <= p < text::bytes(source).len(),
        forall|i: int|
            #![trigger spans[i]]
            0 <= i < spans.len() && spans[i].0 <= p ==> even(
                text::cut(source, spans[i].0 as int, spans[i].1 as int),
                0,
            ),
    ensures
        p - cursor < text::bytes(blanked_from(source, spans, cursor)).len(),
        forall|i: int|
            #![trigger spans[i]]
            0 <= i < spans.len() && spans[i].0 <= p < spans[i].1 ==> text::bytes(
                blanked_from(source, spans, cursor),
            )[p - cursor] == patch(text::bytes(source)[p], p - spans[i].0),
        (forall|i: int|
            #![trigger spans[i]]
            0 <= i < spans.len() ==> !(spans[i].0 <= p < spans[i].1)) ==> text::bytes(
            blanked_from(source, spans, cursor),
        )[p - cursor] == text::bytes(source)[p],
    decreases spans.len(),
{
    let s = text::bytes(source);
    let b = text::bytes(blanked_from(source, spans, cursor));
    text::lemma_boundary_range(source, cursor);
    text::lemma_boundary_ends(source);
    if spans.len() == 0 {
        text::lemma_cut(source, cursor, s.len() as int);
    } else {
        let (start, end) = spans[0];
        let rest = spans.drop_first();
        lemma_rest_in_turn(source, spans, cursor);
        let head = text::cut(source, cursor, start as int);
        let region = text::cut(source, start as int, end as int);
        let fill = filler(region, 0);
        let tail = blanked_from(source, rest, end as int);
        text::lemma_cut(source, cursor, start as int);
        text::lemma_cut(source, start as int, end as int);
        lemma_filler(region, 0);
        text::lemma_bytes_concat(head, fill);
        text::lemma_bytes_concat(head + fill, tail);
        assert(b == text::bytes(head) + text::bytes(fill) + text::bytes(tail));
        assert forall|i: int| #![trigger spans[i]] 0 < i < spans.len() implies end <= spans[i].0
            && spans[i] == rest[i - 1] by {
            assert(spans[0].1 <= spans[i].0);
        }
        if p < start {
            assert(b[p - cursor] == text::bytes(head)[p - cursor]);
        } else {
            assert(spans[0].0 <= p);
            assert(even(region, 0));
            if p < end {
                assert(b[p - cursor] == text::bytes(fill)[p - start]);
                assert(text::bytes(region)[p - start] == s[p]);
                assert(spans[0].0 <= p < spans[0].1);
            } else {
                assert forall|i: int| #![trigger rest[i]] 0 <= i < rest.len() implies rest[i]
                    == spans[i + 1] by {}
                lemma_blanked(source, rest, end as int, p);
                assert(b[p - cursor] == text::bytes(tail)[p - end]);
            }
        }
    }
}

/// The spans of regions come in turn.
pub proof fn lemma_spans_in_turn(source: Seq<char>)
    requires
        regions::laid_out(source, regions::regions_of(source)),
    ensures
        in_turn(
            source,
            regions::regions_of(source).map_values(
                |region: regions::Region| (region.start, region.end),
            ),
            0,
        ),
{
    let found = regions::regions_of(source);
    let spans = found.map_values(|region: regions::Region| (region.start, region.end));
    assert forall|i: int| #![trigger spans[i]] 0 <= i < spans.len() implies spans[i].0 < spans[i].1
        && text::cuttable(source, spans[i].0 as int, spans[i].1 as int) by {
        assert(found[i].start < found[i].end);
    }
    assert forall|i: int, j: int| #![trigger spans[i], spans[j]] 0 <= i < j < spans.len() implies spans[i].1
        <= spans[j].0 by {
        assert(found[i].end <= found[j].start);
    }
}

/// Strings as a set of texts.
pub open spec fn as_set(names: Seq<String>) -> Set<Seq<char>> {
    Set::new(|name: Seq<char>| exists|i: int| 0 <= i < names.len() && (#[trigger] names[i])@ == name)
}

/// [`luaux::resolve::Resolver::new`] and [`luaux::resolve::Resolver::bound`]:
/// every name bound in a file whose LuauX has been blanked, in no particular
/// order. The settings play no part in it.
///
/// The Luau parser under it may come past the end of a text that begins with a
/// `#!` line and holds nothing but comments, so no such line may be there. And
/// it gives up on a character that its lexer does not know where it looks for
/// the rest of a type, so [`luau::known`] has to hold.
#[verifier::external_body]
fn bound_names(blanked: &str, config: &Config) -> (r: Vec<String>)
    requires
        !text::occurs(text::bytes(blanked@), text::bytes("#!"@), 0),
        luau::known(blanked@),
    ensures
        as_set(r@) == bound_in(blanked@),
{
    luaux::resolve::Resolver::new(blanked, config.clone()).bound().iter().cloned().collect()
}

/// [`luaux::resolve::blank_luaux_regions`], which replaces each span with
/// filler, as [`blanked`] says. It slices the text at both ends of a span.
#[verifier::external_body]
pub(crate) fn blank_luaux_regions(source: &str, spans: &Vec<(usize, usize)>) -> (r: String)
    requires
        forall|i: int|
            0 <= i < spans@.len() ==> text::cuttable(
                source@,
                (#[trigger] spans@[i]).0 as int,
                spans@[i].1 as int,
            ),
    ensures
        r@ == blanked(source@, spans@),
{
    luaux::resolve::blank_luaux_regions(source, spans)
}

/// The file that is left when every region has been blanked.
pub open spec fn blanked_file(source: Seq<char>) -> Seq<char> {
    blanked(
        source,
        regions::regions_of(source).map_values(|region: regions::Region| (region.start, region.end)),
    )
}

/// Blanks every region of a file.
pub fn blank(source: &str) -> (r: String)
    ensures
        r@ == blanked_file(source@),
        regions::laid_out(source@, regions::regions_of(source@)),
        text::bytes(r@).len() <= text::bytes(source@).len(),
{
    proof {
        text::lemma_boundary_ends(source@);
    }
    let found = regions::regions(source);
    proof {
        lemma_spans_in_turn(source@);
        lemma_blanked_length(
            source@,
            found@.map_values(|region: regions::Region| (region.start, region.end)),
            0,
        );
    }
    let spans = regions::spans_of(&found);
    blank_luaux_regions(source, &spans)
}

/// A text without the `#!` line that it may begin with, which is no code.
pub open spec fn code_of(text: Seq<char>) -> Seq<char> {
    if text::occurs(text::bytes(text), text::bytes("#!"@), 0) {
        match pieces::split_of(text, '\n') {
            Some((_, rest)) => "\n"@ + rest,
            None => Seq::empty(),
        }
    } else {
        text
    }
}

/// A text is never longer than it was with the line.
pub proof fn lemma_code(text: Seq<char>)
    ensures
        text::bytes(code_of(text)).len() <= text::bytes(text).len(),
{
    if text::occurs(text::bytes(text), text::bytes("#!"@), 0) {
        if let Some((line, rest)) = pieces::split_of(text, '\n') {
            reveal_strlit("\n");
            assert("\n"@ =~= seq!['\n']);
            pieces::lemma_first_at(text, '\n');
            assert(text =~= line + (seq!['\n'] + rest));
            text::lemma_bytes_concat(line, seq!['\n'] + rest);
        }
    }
}

/// Leaves out the `#!` line that a text may begin with.
pub fn code(text: &str) -> (r: String)
    ensures
        r@ == code_of(text@),
{
    if !starts_with(text, "#!") {
        return text.to_owned();
    }
    match split_once(text, '\n') {
        Some((_, rest)) => {
            let mut code = "\n".to_owned();
            code.append(rest);
            code
        },
        None => String::new(),
    }
}

/// The names that a file binds, wherever it does. A character that the Luau
/// parser could not take counts as a space.
pub open spec fn names_of(source: Seq<char>) -> Set<Seq<char>> {
    bound_in(luau::tamed(code_of(blanked_file(source))))
}

/// The names that a file binds, in no particular order.
pub fn names_in(source: &str, config: &Config) -> (r: Vec<String>)
    ensures
        as_set(r@) == names_of(source@),
{
    let blanked = blank(source);
    let code = code(blanked.as_str());
    let tame = luau::tame(code.as_str());
    proof {
        luau::lemma_known(tame@);
    }
    bound_names(tame.as_str(), config)
}

/// Whether a name is among some.
pub fn is_among(names: &Vec<String>, name: &str) -> (r: bool)
    ensures
        r == as_set(names@).contains(name@),
{
    let mut i: usize = 0;
    while i < names.len()
        invariant
            i <= names@.len(),
            forall|j: int| 0 <= j < i ==> (#[trigger] names@[j])@ != name@,
        decreases names@.len() - i,
    {
        if same(names[i].as_str(), name) {
            assert(names@[i as int]@ == name@);
            return true;
        }
        i = i + 1;
    }
    false
}

/// What an element's name stands for, as plain values.
pub enum MeaningView {
    Intrinsic(Seq<char>),
    Component,
    Unresolved,
}

impl View for Meaning {
    type V = MeaningView;

    open spec fn view(&self) -> MeaningView {
        match *self {
            Meaning::Intrinsic(class) => MeaningView::Intrinsic(class@),
            Meaning::Component => MeaningView::Component,
            Meaning::Unresolved => MeaningView::Unresolved,
        }
    }
}

/// What a tag stands for: a dotted name is a component; the settings come
/// first; then a class of that name; then what the file binds.
pub open spec fn meaning_of(config: Config, bound: Set<Seq<char>>, name: TagName) -> MeaningView {
    match name {
        TagName::Member(_) => MeaningView::Component,
        TagName::Simple(name) => if settings::claimed_tags(config).contains_key(name@) {
            match settings::claimed_tags(config)[name@] {
                Some(class) => MeaningView::Intrinsic(class),
                None => MeaningView::Unresolved,
            }
        } else if classes::creatable(name@) {
            MeaningView::Intrinsic(name@)
        } else if bound.contains(name@) {
            MeaningView::Component
        } else {
            MeaningView::Unresolved
        },
    }
}

pub fn meaning(config: &Config, bound: &Vec<String>, name: &TagName) -> (r: Meaning)
    ensures
        r@ == meaning_of(*config, as_set(bound@), *name),
{
    match name {
        TagName::Member(_) => Meaning::Component,
        TagName::Simple(simple) => match resolve_element(config, simple.as_str()) {
            Claim::Class(class) => Meaning::Intrinsic(class),
            Claim::Retired => Meaning::Unresolved,
            Claim::Unclaimed => if is_class(simple.as_str()) {
                Meaning::Intrinsic(simple.clone())
            } else if is_among(bound, simple.as_str()) {
                Meaning::Component
            } else {
                Meaning::Unresolved
            },
        },
    }
}

/// The class that a tag stands for, if it is a class's.
pub open spec fn class_of(config: Config, written: Seq<char>) -> Option<Seq<char>> {
    if settings::claimed_tags(config).contains_key(written) {
        settings::claimed_tags(config)[written]
    } else if classes::creatable(written) {
        Some(written)
    } else {
        None
    }
}

/// The class that a tag stands for, honouring `[elements]` aliases.
///
/// Aliases are exclusive: once `TextLabel = "text"` is configured, `<text>` is
/// the spelling and `<TextLabel>` is an error. A spelling that was retired is
/// not a class you may write.
pub fn resolve_class(config: &Config, written: &str) -> (r: Option<String>)
    ensures
        text::view_of(r) == class_of(*config, written@),
{
    match resolve_element(config, written) {
        Claim::Class(class) => Some(class),
        Claim::Retired => None,
        Claim::Unclaimed => if is_class(written) {
            Some(written.to_owned())
        } else {
            None
        },
    }
}

/// The member of a class that a reading is, if the class has it.
pub open spec fn accepted(class: Seq<char>, reading: Option<Seq<char>>) -> Option<Seq<char>> {
    match reading {
        Some(name) if classes::has_member(class, name) => Some(name),
        _ => None,
    }
}

/// Takes a reading of an attribute, unless the class has no such member.
pub fn accept(class: &str, reading: Option<String>) -> (r: Option<String>)
    ensures
        text::view_of(r) == accepted(class@, text::view_of(reading)),
{
    match reading {
        Some(name) => if has_property(class, name.as_str()) || is_event(class, name.as_str()) {
            Some(name)
        } else {
            None
        },
        None => None,
    }
}

/// What the compiler reads an attribute on a class as.
///
/// Every member offered for completion is read as itself, as long as no entry
/// gives its spelling to another name as well.
pub fn read_attribute(config: &Config, class: &str, written: &str) -> (r: Option<String>)
    ensures
        settings::readings(*config)[(class@, written@)].contains(text::view_of(r)),
        forall|offered: Seq<NamedView>, i: int|
            #![trigger naming::offers(*config, class@, offered), offered[i]]
            naming::offers(*config, class@, offered) && 0 <= i < offered.len()
                && offered[i].written == written@ && naming::sole(*config, class@, offered[i])
                ==> text::view_of(r) == Some(offered[i].canonical),
{
    let reading = resolve_property(config, class, written);
    proof {
        assert forall|offered: Seq<NamedView>, i: int|
            #![trigger naming::offers(*config, class@, offered), offered[i]]
            naming::offers(*config, class@, offered) && 0 <= i < offered.len()
                && offered[i].written == written@ && naming::sole(
                *config,
                class@,
                offered[i],
            ) implies text::view_of(reading) == Some(offered[i].canonical) by {
            naming::lemma_offered_is_read(*config, class@, offered, i, text::view_of(reading));
        }
    }
    reading
}

/// Whether `key` is what an attribute's name stands for on an element. On a
/// class it is a reading that the class accepts; anywhere else, the name.
pub open spec fn keyed(
    config: Config,
    meaning: MeaningView,
    name: Seq<char>,
    key: Option<Seq<char>>,
) -> bool {
    match meaning {
        MeaningView::Intrinsic(class) => exists|reading: Option<Seq<char>>| #[trigger]
            settings::readings(config)[(class, name)].contains(reading) && key == accepted(
                class,
                reading,
            ),
        _ => key == Some(name),
    }
}

pub fn key_of(config: &Config, meaning: &Meaning, name: &String) -> (r: Option<String>)
    ensures
        keyed(*config, meaning@, name@, text::view_of(r)),
{
    match meaning {
        Meaning::Intrinsic(class) => accept(
            class.as_str(),
            read_attribute(config, class.as_str(), name.as_str()),
        ),
        _ => Some(name.clone()),
    }
}

/// Whether `done` is `full` with every name resolved.
pub open spec fn resolved(
    config: Config,
    bound: Set<Seq<char>>,
    full: Markup,
    done: Markup,
) -> bool
    decreases done,
{
    match (full, done) {
        (Markup::Element(a), Markup::Element(b)) => {
            &&& a.name == b.name
            &&& a.span == b.span
            &&& b.meaning@ == meaning_of(config, bound, a.name)
            &&& a.attributes@.len() == b.attributes@.len()
            &&& forall|i: int|
                0 <= i < b.attributes@.len() ==> resolved_prop(
                    config,
                    bound,
                    b.meaning@,
                    a.attributes@[i],
                    #[trigger] b.attributes@[i],
                )
            &&& resolved_items(config, bound, a.children@, b.children@)
        },
        (Markup::Fragment(a), Markup::Fragment(b)) => {
            &&& a.span == b.span
            &&& resolved_items(config, bound, a.children@, b.children@)
        },
        _ => false,
    }
}

pub open spec fn resolved_items(
    config: Config,
    bound: Set<Seq<char>>,
    full: Seq<Item>,
    done: Seq<Item>,
) -> bool
    decreases done,
{
    &&& full.len() == done.len()
    &&& forall|i: int|
        0 <= i < done.len() ==> resolved_item(config, bound, full[i], #[trigger] done[i])
}

pub open spec fn resolved_prop(
    config: Config,
    bound: Set<Seq<char>>,
    meaning: MeaningView,
    full: Prop,
    done: Prop,
) -> bool
    decreases done,
{
    match (full, done) {
        (
            Prop::Named { name: a, value: v, span: s, .. },
            Prop::Named { name: b, key, value: w, span: t },
        ) => {
            &&& a == b
            &&& s == t
            &&& keyed(config, meaning, a@, text::view_of(key))
            &&& match (v, w) {
                (PropValue::Expression(x), PropValue::Expression(y)) => resolved_hole(
                    config,
                    bound,
                    x,
                    y,
                ),
                (PropValue::Expression(_), _) => false,
                (_, PropValue::Expression(_)) => false,
                _ => v == w,
            }
        },
        (Prop::Spread { hole: x, span: s }, Prop::Spread { hole: y, span: t }) => s == t
            && resolved_hole(config, bound, x, y),
        _ => false,
    }
}

pub open spec fn resolved_item(
    config: Config,
    bound: Set<Seq<char>>,
    full: Item,
    done: Item,
) -> bool
    decreases done,
{
    match (full, done) {
        (Item::Node(a), Item::Node(b)) => resolved(config, bound, a, b),
        (Item::Expression { hole: x, span: s }, Item::Expression { hole: y, span: t }) => s == t
            && resolved_hole(config, bound, x, y),
        (Item::Text { .. }, Item::Text { .. }) => full == done,
        (Item::Comment { .. }, Item::Comment { .. }) => full == done,
        _ => false,
    }
}

pub open spec fn resolved_hole(
    config: Config,
    bound: Set<Seq<char>>,
    full: Option<Hole>,
    done: Option<Hole>,
) -> bool
    decreases done,
{
    match (full, done) {
        (None, None) => true,
        (Some(a), Some(b)) => {
            &&& a.start == b.start
            &&& a.end == b.end
            &&& a.nested@.len() == b.nested@.len()
            &&& forall|i: int|
                0 <= i < b.nested@.len() ==> resolved_nested(
                    config,
                    bound,
                    a.nested@[i],
                    #[trigger] b.nested@[i],
                )
        },
        _ => false,
    }
}

pub open spec fn resolved_nested(
    config: Config,
    bound: Set<Seq<char>>,
    full: Nested,
    done: Nested,
) -> bool
    decreases done,
{
    &&& full.start == done.start
    &&& full.end == done.end
    &&& match (full.node, done.node) {
        (None, None) => true,
        (Some(a), Some(b)) => resolved(config, bound, a, b),
        _ => false,
    }
}

/// Resolves every name in a tree.
pub fn resolve(config: &Config, bound: &Vec<String>, node: Markup) -> (r: Markup)
    ensures
        resolved(*config, as_set(bound@), node, r),
    decreases node,
{
    match node {
        Markup::Element(element) => {
            let ElementNode { name, attributes, children, span, .. } = element;
            let meaning = meaning(config, bound, &name);
            let attributes = resolve_props(config, bound, &meaning, attributes);
            let children = resolve_items(config, bound, children);
            Markup::Element(ElementNode { name, meaning, attributes, children, span })
        },
        Markup::Fragment(fragment) => {
            let FragmentNode { children, span } = fragment;
            let children = resolve_items(config, bound, children);
            Markup::Fragment(FragmentNode { children, span })
        },
    }
}

fn resolve_props(config: &Config, bound: &Vec<String>, meaning: &Meaning, props: Vec<Prop>) -> (r:
    Vec<Prop>)
    ensures
        r@.len() == props@.len(),
        forall|i: int|
            0 <= i < r@.len() ==> resolved_prop(
                *config,
                as_set(bound@),
                meaning@,
                props@[i],
                #[trigger] r@[i],
            ),
    decreases props,
{
    let ghost all = props@;
    let mut out: Vec<Prop> = Vec::new();
    for prop in it: props
        invariant
            all == props@,
            it.seq() == all,
            out@.len() == it.index(),
            forall|i: int|
                0 <= i < out@.len() ==> resolved_prop(
                    *config,
                    as_set(bound@),
                    meaning@,
                    all[i],
                    #[trigger] out@[i],
                ),
    {
        assert(prop == all[it.index()]);
        assert(decreases_to!(props => props@[it.index()]));
        let done = match prop {
            Prop::Named { name, value, span, .. } => {
                let key = key_of(config, meaning, &name);
                let value = match value {
                    PropValue::Expression(hole) => PropValue::Expression(
                        resolve_hole(config, bound, hole),
                    ),
                    other => other,
                };
                Prop::Named { name, key, value, span }
            },
            Prop::Spread { hole, span } => Prop::Spread {
                hole: resolve_hole(config, bound, hole),
                span,
            },
        };
        out.push(done);
    }
    out
}

fn resolve_items(config: &Config, bound: &Vec<String>, items: Vec<Item>) -> (r: Vec<Item>)
    ensures
        resolved_items(*config, as_set(bound@), items@, r@),
    decreases items,
{
    let ghost all = items@;
    let mut out: Vec<Item> = Vec::new();
    for item in it: items
        invariant
            all == items@,
            it.seq() == all,
            out@.len() == it.index(),
            forall|i: int|
                0 <= i < out@.len() ==> resolved_item(
                    *config,
                    as_set(bound@),
                    all[i],
                    #[trigger] out@[i],
                ),
    {
        assert(item == all[it.index()]);
        assert(decreases_to!(items => items@[it.index()]));
        let done = match item {
            Item::Node(node) => Item::Node(resolve(config, bound, node)),
            Item::Expression { hole, span } => Item::Expression {
                hole: resolve_hole(config, bound, hole),
                span,
            },
            other => other,
        };
        out.push(done);
    }
    out
}

fn resolve_hole(config: &Config, bound: &Vec<String>, hole: Option<Hole>) -> (r: Option<Hole>)
    ensures
        resolved_hole(*config, as_set(bound@), hole, r),
    decreases hole,
{
    match hole {
        None => None,
        Some(inner) => {
            let Hole { start, end, nested } = inner;
            let ghost all = nested@;
            let mut out: Vec<Nested> = Vec::new();
            for one in it: nested
                invariant
                    hole == Some(inner),
                    all == inner.nested@,
                    it.seq() == all,
                    out@.len() == it.index(),
                    forall|i: int|
                        0 <= i < out@.len() ==> resolved_nested(
                            *config,
                            as_set(bound@),
                            all[i],
                            #[trigger] out@[i],
                        ),
            {
                assert(one == all[it.index()]);
                assert(decreases_to!(hole => hole->Some_0.nested@[it.index()]));
                let node = match one.node {
                    Some(node) => Some(resolve(config, bound, node)),
                    None => None,
                };
                out.push(Nested { start: one.start, end: one.end, node });
            }
            Some(Hole { start, end, nested: out })
        },
    }
}

/// Resolving names moves nothing.
pub proof fn lemma_resolved_placed(
    source: Seq<char>,
    config: Config,
    bound: Set<Seq<char>>,
    full: Markup,
    done: Markup,
)
    requires
        syntax::placed(source, full),
        resolved(config, bound, full, done),
    ensures
        syntax::placed(source, done),
        done.span() == full.span(),
    decreases done,
{
    match (full, done) {
        (Markup::Element(a), Markup::Element(b)) => {
            assert forall|i: int| 0 <= i < b.attributes@.len() implies syntax::placed_prop(
                source,
                #[trigger] b.attributes@[i],
                b.span,
            ) by {
                assert(syntax::placed_prop(source, a.attributes@[i], a.span));
                match (a.attributes@[i], b.attributes@[i]) {
                    (
                        Prop::Named { value: PropValue::Expression(x), .. },
                        Prop::Named { value: PropValue::Expression(y), .. },
                    ) => {
                        lemma_hole_placed(source, config, bound, x, y);
                    },
                    (Prop::Spread { hole: x, .. }, Prop::Spread { hole: y, .. }) => {
                        lemma_hole_placed(source, config, bound, x, y);
                    },
                    _ => {},
                }
            }
            lemma_items_placed(source, config, bound, a.children@, b.children@, a.span);
        },
        (Markup::Fragment(a), Markup::Fragment(b)) => {
            lemma_items_placed(source, config, bound, a.children@, b.children@, a.span);
        },
        _ => {},
    }
}

proof fn lemma_items_placed(
    source: Seq<char>,
    config: Config,
    bound: Set<Seq<char>>,
    full: Seq<Item>,
    done: Seq<Item>,
    outer: syntax::Extent,
)
    requires
        forall|i: int|
            0 <= i < full.len() ==> syntax::placed_child(source, #[trigger] full[i], outer),
        resolved_items(config, bound, full, done),
    ensures
        forall|i: int|
            0 <= i < done.len() ==> syntax::placed_child(source, #[trigger] done[i], outer),
    decreases done,
{
    assert forall|i: int| 0 <= i < done.len() implies syntax::placed_child(
        source,
        #[trigger] done[i],
        outer,
    ) by {
        assert(syntax::placed_child(source, full[i], outer));
        assert(resolved_item(config, bound, full[i], done[i]));
        match (full[i], done[i]) {
            (Item::Node(a), Item::Node(b)) => {
                lemma_resolved_placed(source, config, bound, a, b);
            },
            (Item::Expression { hole: x, .. }, Item::Expression { hole: y, .. }) => {
                lemma_hole_placed(source, config, bound, x, y);
            },
            _ => {},
        }
    }
}

proof fn lemma_hole_placed(
    source: Seq<char>,
    config: Config,
    bound: Set<Seq<char>>,
    full: Option<Hole>,
    done: Option<Hole>,
)
    requires
        syntax::placed_hole(source, full),
        resolved_hole(config, bound, full, done),
    ensures
        syntax::placed_hole(source, done),
    decreases done,
{
    if let (Some(a), Some(b)) = (full, done) {
        assert forall|i: int| 0 <= i < b.nested@.len() implies syntax::placed_nested(
            source,
            #[trigger] b.nested@[i],
        ) by {
            assert(resolved_nested(config, bound, a.nested@[i], b.nested@[i]));
            assert(syntax::placed_nested(source, a.nested@[i]));
            if let (Some(x), Some(y)) = (a.nested@[i].node, b.nested@[i].node) {
                lemma_resolved_placed(source, config, bound, x, y);
            }
        }
    }
}

} // verus!
