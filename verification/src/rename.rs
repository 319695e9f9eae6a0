//! Rename.
//!
//! Two distinct operations, and conflating them produces data loss:
//!
//! * **A tag pair** — `<Frame>…</Frame>` renamed together. Ours, and handled here.
//! * **A Luau symbol** — forwarded. The edits come back against the *generated*
//!   file and have to be mapped home, and an edit touching generated text is not
//!   applicable: the rename is refused rather than partially applied. That half
//!   is [`crate::remap`]'s.

use vstd::prelude::*;
use vstd::string::*;

use crate::document::{self, edit, Document};
use crate::json::{self, Json, JsonView};
use crate::pieces::{self, is_name, split_once};
use crate::scan::{Context, Scan};
use crate::text;
use crate::tree::{self, flatten, Tag};

verus! {

#[derive(Debug)]
pub enum Answer {
    Ours(Json),
    /// A Luau symbol; luau-lsp knows its occurrences.
    Forward,
    /// Not renameable here.
    Nothing,
}

/// An answer, as plain values.
pub enum AnswerView {
    Ours(JsonView),
    Forward,
    Nothing,
}

impl View for Answer {
    type V = AnswerView;

    open spec fn view(&self) -> AnswerView {
        match *self {
            Answer::Ours(value) => AnswerView::Ours(value@),
            Answer::Forward => AnswerView::Forward,
            Answer::Nothing => AnswerView::Nothing,
        }
    }
}

/// The first of some tags that has a name and has it at an offset.
pub open spec fn renamed_at(tags: Seq<Tag>, offset: usize) -> Option<Tag>
    decreases tags.len(),
{
    if tags.len() == 0 {
        None
    } else if tags[0].name@.len() > 0 && tags[0].named(offset) is Some {
        Some(tags[0])
    } else {
        renamed_at(tags.drop_first(), offset)
    }
}

/// The element whose name is at `offset`.
fn pair<'a>(tags: &'a [Tag], offset: usize) -> (r: Option<&'a Tag>)
    ensures
        match (r, renamed_at(tree::flat(tags@), offset)) {
            (Some(a), Some(b)) => *a == b,
            (None, None) => true,
            _ => false,
        },
{
    let all = flatten(tags);
    let ghost seen = tree::flat(tags@);
    let mut i: usize = 0;
    assert(seen.skip(0) =~= seen);
    while i < all.len()
        invariant
            i <= all@.len(),
            seen == tree::flat(tags@),
            all@.map_values(|tag: &Tag| *tag) == seen,
            renamed_at(seen, offset) == renamed_at(seen.skip(i as int), offset),
        decreases all@.len() - i,
    {
        let tag = all[i];
        proof {
            assert(seen[i as int] == *tag);
            assert(seen.skip(i as int)[0] == *tag);
            assert(seen.skip(i as int).drop_first() =~= seen.skip(i + 1));
        }
        // A fragment has no name to rename.
        if !tag.name.as_str().is_empty() && tag.name_at(offset).is_some() {
            return Some(tag);
        }
        i = i + 1;
    }
    None
}

/// What is answered where there is no element to rename.
pub open spec fn elsewhere(context: Context) -> AnswerView {
    if context.is_luau() {
        AnswerView::Forward
    } else {
        AnswerView::Nothing
    }
}

fn otherwise(context: &Context) -> (r: Answer)
    ensures
        r@ == elsewhere(*context),
{
    if context.forwards() {
        Answer::Forward
    } else {
        Answer::Nothing
    }
}

/// What would be renamed, given the elements of the file.
pub open spec fn prepared(
    source: Seq<char>,
    context: Context,
    tags: Seq<Tag>,
    offset: usize,
) -> AnswerView {
    match renamed_at(tree::flat(tags), offset) {
        Some(tag) => AnswerView::Ours(
            document::range_at(source, tag.open_name.0 as int, tag.open_name.1 as int),
        ),
        None => elsewhere(context),
    }
}

/// `textDocument/prepareRename` — the range that would be renamed.
pub fn prepare(document: &Document, scan: &Scan, offset: usize) -> (r: Answer)
    requires
        document.wf(),
    ensures
        exists|tags: Seq<Tag>| #[trigger]
            tree::treed(document.text@, tags) && r@ == prepared(
                document.text@,
                scan.context,
                tags,
                offset,
            ),
{
    let tags = tree::tree(document.text.as_str());
    let r = match pair(tags.as_slice(), offset) {
        Some(tag) => Answer::Ours(document.range_at(tag.open_name.0, tag.open_name.1)),
        None => otherwise(&scan.context),
    };
    assert(tree::treed(document.text@, tags@));
    r
}

/// Whether a name is one that a tag can have: plain names with dots between.
pub open spec fn dotted_name(name: Seq<char>) -> bool
    decreases name.len(),
    via dotted_name_decreases
{
    match pieces::split_of(name, '.') {
        Some((first, rest)) => pieces::plain_name(first) && dotted_name(rest),
        None => pieces::plain_name(name),
    }
}

#[via_fn]
proof fn dotted_name_decreases(name: Seq<char>) {
    pieces::lemma_first_at(name, '.');
}

/// Whether a name can legally be a tag.
///
/// Renaming to something unwritable would produce a file that does not parse,
/// and an editor cannot undo half of a rename it has already applied.
pub fn is_element_name(name: &str) -> (r: bool)
    ensures
        r == dotted_name(name@),
{
    let mut rest: &str = name;
    loop
        invariant
            dotted_name(name@) == dotted_name(rest@),
        decreases rest@.len(),
    {
        proof {
            pieces::lemma_first_at(rest@, '.');
        }
        match split_once(rest, '.') {
            Some((first, after)) => {
                if !is_name(first) {
                    return false;
                }
                rest = after;
            },
            None => {
                return is_name(rest);
            },
        }
    }
}

/// The edits that give both halves of an element a new name.
pub open spec fn edits_of(source: Seq<char>, tag: Tag, new_name: Seq<char>) -> Seq<JsonView> {
    let open = document::edit_json(
        document::range_at(source, tag.open_name.0 as int, tag.open_name.1 as int),
        new_name,
    );
    match tag.close_name {
        Some((start, end)) => seq![
            open,
            document::edit_json(
                document::range_at(source, start as int, end as int),
                new_name,
            ),
        ],
        None => seq![open],
    }
}

/// Edits to one file, as JSON.
pub open spec fn changes_json(uri: Seq<char>, edits: Seq<JsonView>) -> JsonView {
    JsonView::object().with("changes"@, JsonView::object().with(uri, JsonView::Array(edits)))
}

pub fn changes(uri: &str, edits: Vec<Json>) -> (r: Json)
    ensures
        r@ == changes_json(uri@, json::list_view(edits@)),
{
    Json::object().with("changes", Json::object().with(uri, Json::Array(edits)))
}

/// What a rename comes to, given the elements of the file.
pub open spec fn renamed(
    uri: Seq<char>,
    source: Seq<char>,
    context: Context,
    tags: Seq<Tag>,
    offset: usize,
    new_name: Seq<char>,
) -> AnswerView {
    match renamed_at(tree::flat(tags), offset) {
        Some(tag) => if dotted_name(new_name) {
            AnswerView::Ours(changes_json(uri, edits_of(source, tag, new_name)))
        } else {
            AnswerView::Nothing
        },
        None => elsewhere(context),
    }
}

pub fn rename(document: &Document, scan: &Scan, offset: usize, new_name: &str) -> (r: Answer)
    requires
        document.wf(),
    ensures
        exists|tags: Seq<Tag>| #[trigger]
            tree::treed(document.text@, tags) && r@ == renamed(
                document.uri@,
                document.text@,
                scan.context,
                tags,
                offset,
                new_name@,
            ),
{
    let tags = tree::tree(document.text.as_str());
    let r = match pair(tags.as_slice(), offset) {
        Some(tag) => if !is_element_name(new_name) {
            Answer::Nothing
        } else {
            let open = edit(document.range_at(tag.open_name.0, tag.open_name.1), new_name);
            let mut edits: Vec<Json> = Vec::new();
            proof {
                json::lemma_list_view_push(edits@, open);
            }
            edits.push(open);
            if let Some((start, end)) = tag.close_name {
                let close = edit(document.range_at(start, end), new_name);
                proof {
                    json::lemma_list_view_push(edits@, close);
                }
                edits.push(close);
            }
            assert(json::list_view(edits@) =~= edits_of(document.text@, *tag, new_name@));
            Answer::Ours(changes(document.uri.as_str(), edits))
        },
        None => otherwise(&scan.context),
    };
    assert(tree::treed(document.text@, tags@));
    r
}

/// A rename to a name that a tag can have is ours wherever preparing it was, and
/// its first edit is to the range that was prepared.
pub proof fn law_what_was_prepared_is_renamed(
    uri: Seq<char>,
    source: Seq<char>,
    context: Context,
    tags: Seq<Tag>,
    offset: usize,
    new_name: Seq<char>,
)
    requires
        dotted_name(new_name),
    ensures
        match prepared(source, context, tags, offset) {
            AnswerView::Ours(range) => exists|edits: Seq<JsonView>| #[trigger]
                changes_json(uri, edits) == renamed_ours(
                    renamed(uri, source, context, tags, offset, new_name),
                ) && edits.len() > 0 && edits[0] == document::edit_json(range, new_name),
            other => renamed(uri, source, context, tags, offset, new_name) == other,
        },
{
    if let Some(tag) = renamed_at(tree::flat(tags), offset) {
        let edits = edits_of(source, tag, new_name);
        assert(changes_json(uri, edits) == renamed_ours(
            renamed(uri, source, context, tags, offset, new_name),
        ));
    }
}

/// Whether a part of a dotted name begins at a character: at the first, or after a
/// dot.
pub open spec fn begins_part(name: Seq<char>, i: int) -> bool {
    0 <= i < name.len() && (i == 0 || name[i - 1] == '.')
}

/// Whether a text is made of names with dots between: at its start and after each
/// dot stands what may begin a name, and it ends in no dot.
pub open spec fn names_between_dots(name: Seq<char>) -> bool {
    &&& name.len() > 0
    &&& name.last() != '.'
    &&& forall|i: int|
        0 <= i < name.len() ==> #[trigger] name[i] == '.' || pieces::name_part(name[i])
    &&& forall|i: int| #[trigger] begins_part(name, i) ==> pieces::name_start(name[i])
}

/// A name can be that of a tag just where it is made of names with dots between.
pub proof fn law_a_tag_name_is_names_between_dots(name: Seq<char>)
    ensures
        dotted_name(name) <==> names_between_dots(name),
    decreases name.len(),
{
    pieces::lemma_first_at(name, '.');
    let n = pieces::first_at(name, '.');
    if n < name.len() {
        law_a_tag_name_is_names_between_dots(name.skip(n + 1));
        lemma_dot(name, n);
    } else {
        lemma_no_dot(name);
    }
}

/// Without a dot a name is one name.
proof fn lemma_no_dot(name: Seq<char>)
    requires
        forall|i: int| 0 <= i < name.len() ==> #[trigger] name[i] != '.',
    ensures
        pieces::plain_name(name) <==> names_between_dots(name),
{
    if names_between_dots(name) {
        assert(begins_part(name, 0));
    }
    if pieces::plain_name(name) {
        assert forall|i: int| #[trigger] begins_part(name, i) implies pieces::name_start(
            name[i],
        ) by {
            if i > 0 {
                assert(name[i - 1] != '.');
            }
        }
    }
}

/// At its first dot a name falls into a name and the rest.
proof fn lemma_dot(name: Seq<char>, n: int)
    requires
        0 <= n < name.len(),
        name[n] == '.',
        forall|i: int| 0 <= i < n ==> #[trigger] name[i] != '.',
    ensures
        names_between_dots(name) <==> pieces::plain_name(name.take(n)) && names_between_dots(
            name.skip(n + 1),
        ),
{
    let first = name.take(n);
    let rest = name.skip(n + 1);
    if names_between_dots(name) {
        assert(begins_part(name, 0));
        assert(!pieces::name_start('.'));
        assert(n > 0);
        assert(name[name.len() - 1] != '.');
        assert forall|i: int| 0 <= i < first.len() implies pieces::name_part(#[trigger] first[i]) by {
            assert(first[i] == name[i]);
        }
        assert forall|i: int| 0 <= i < rest.len() implies #[trigger] rest[i] == '.'
            || pieces::name_part(rest[i]) by {
            assert(rest[i] == name[i + n + 1]);
        }
        assert forall|i: int| #[trigger] begins_part(rest, i) implies pieces::name_start(
            rest[i],
        ) by {
            assert(begins_part(name, i + n + 1));
        }
        assert(rest.last() == name.last());
    }
    if pieces::plain_name(first) && names_between_dots(rest) {
        assert(rest.last() == name.last());
        assert forall|i: int| 0 <= i < name.len() implies #[trigger] name[i] == '.'
            || pieces::name_part(name[i]) by {
            if i < n {
                assert(first[i] == name[i]);
            } else if i > n {
                assert(rest[i - n - 1] == name[i]);
            }
        }
        assert forall|i: int| #[trigger] begins_part(name, i) implies pieces::name_start(
            name[i],
        ) by {
            if i == 0 {
                assert(first[0] == name[0]);
            } else if i <= n {
                assert(name[i - 1] != '.');
            } else {
                assert(begins_part(rest, i - n - 1));
            }
        }
    }
}

/// A file with both halves of one of its elements called something.
pub open spec fn with_name(source: Seq<char>, tag: Tag, name: Seq<char>) -> Seq<char> {
    let whole = text::bytes(source).len() as int;
    let (start, end) = tag.open_name;
    match tag.close_name {
        Some((from, to)) => text::cut(source, 0, start as int) + name + text::cut(
            source,
            end as int,
            from as int,
        ) + name + text::cut(source, to as int, whole),
        None => text::cut(source, 0, start as int) + name + text::cut(source, end as int, whole),
    }
}

/// Whether an offset points at an element's name, in either half.
pub open spec fn points_at(tag: Tag, offset: usize) -> bool {
    tag.name@.len() > 0 && (tree::touches(tag.open_name, offset) || (tag.close_name matches Some(
        close,
    ) && tree::touches(close, offset)))
}

/// Whether an edit puts a text in place of another.
pub open spec fn puts(source: Seq<char>, edit: JsonView, old: Seq<char>, new: Seq<char>) -> bool {
    match document::edit_of(source, edit) {
        Some((start, end, text)) => text::cut(source, start, end) == old && text == new,
        None => false,
    }
}

/// Whether an answer renames an element: every edit puts the new name where the
/// old one stands, and together they leave the file as it was but for the names
/// of that element, in both halves.
pub open spec fn renames(
    source: Seq<char>,
    uri: Seq<char>,
    tag: Tag,
    new_name: Seq<char>,
    answer: JsonView,
) -> bool {
    match document::edits_for(answer, uri) {
        Some(edits) => {
            &&& edits.len() == if tag.close_name is Some {
                2int
            } else {
                1int
            }
            &&& forall|k: int|
                0 <= k < edits.len() ==> puts(source, #[trigger] edits[k], tag.name@, new_name)
            &&& document::edited(source, edits) == Some(with_name(source, tag, new_name))
        },
        None => false,
    }
}

/// A rename gives an element that was pointed at its new name in both halves and
/// changes no other byte of the file. It is refused only for a name that no tag
/// can have, and it is left to others only where no element's name is.
///
/// A name that begins with a line feed or ends with a carriage return, which no
/// tag has, could not be said by a position.
pub proof fn law_a_rename_changes_both_halves_and_nothing_else(
    uri: Seq<char>,
    source: Seq<char>,
    context: Context,
    tags: Seq<Tag>,
    offset: usize,
    new_name: Seq<char>,
)
    requires
        tree::treed(source, tags),
        text::bytes(source).len() <= u32::MAX,
        forall|i: int|
            0 <= i < tree::flat(tags).len() ==> document::kept_off_breaks(
                (#[trigger] tree::flat(tags)[i]).name@,
            ),
    ensures
        match renamed(uri, source, context, tags, offset, new_name) {
            AnswerView::Ours(answer) => exists|i: int|
                {
                    &&& 0 <= i < tree::flat(tags).len()
                    &&& points_at(#[trigger] tree::flat(tags)[i], offset)
                    &&& with_name(source, tree::flat(tags)[i], tree::flat(tags)[i].name@) == source
                    &&& renames(source, uri, tree::flat(tags)[i], new_name, answer)
                },
            _ => dotted_name(new_name) ==> forall|i: int|
                0 <= i < tree::flat(tags).len() ==> !points_at(
                    #[trigger] tree::flat(tags)[i],
                    offset,
                ),
        },
{
    let all = tree::flat(tags);
    lemma_renamed_at(all, offset);
    if let Some(tag) = renamed_at(all, offset) {
        let i = choose|i: int| 0 <= i < all.len() && all[i] == tag;
        tree::law_names_are_where_they_say(source, tags, i);
        lemma_with_its_name(source, tag);
        if dotted_name(new_name) {
            lemma_edits(source, tag, new_name);
            let edits = edits_of(source, tag, new_name);
            json::lemma_gets();
            assert(document::edits_for(changes_json(uri, edits), uri) == Some(edits));
            assert(points_at(all[i], offset));
        }
    }
}

/// What is prepared is where the name of an element that is pointed at stands,
/// and there is something to prepare wherever there is such an element.
pub proof fn law_what_is_prepared_is_a_name(
    source: Seq<char>,
    context: Context,
    tags: Seq<Tag>,
    offset: usize,
)
    requires
        tree::treed(source, tags),
        text::bytes(source).len() <= u32::MAX,
        forall|i: int|
            0 <= i < tree::flat(tags).len() ==> document::kept_off_breaks(
                (#[trigger] tree::flat(tags)[i]).name@,
            ),
    ensures
        match prepared(source, context, tags, offset) {
            AnswerView::Ours(range) => exists|i: int|
                {
                    &&& 0 <= i < tree::flat(tags).len()
                    &&& points_at(#[trigger] tree::flat(tags)[i], offset)
                    &&& document::byte_range_of(source, range) == Some(
                        (
                            tree::flat(tags)[i].open_name.0 as int,
                            tree::flat(tags)[i].open_name.1 as int,
                        ),
                    )
                    &&& document::reads(source, range, tree::flat(tags)[i].name@)
                },
            _ => forall|i: int|
                0 <= i < tree::flat(tags).len() ==> !points_at(
                    #[trigger] tree::flat(tags)[i],
                    offset,
                ),
        },
{
    let all = tree::flat(tags);
    lemma_renamed_at(all, offset);
    if let Some(tag) = renamed_at(all, offset) {
        let i = choose|i: int| 0 <= i < all.len() && all[i] == tag;
        tree::law_names_are_where_they_say(source, tags, i);
        let (start, end) = (tag.open_name.0 as int, tag.open_name.1 as int);
        document::lemma_sayable(source, start, end);
        document::law_ranges_read_back(source, start, end);
        assert(points_at(all[i], offset));
    }
}

/// The element to rename is one that is pointed at; if there is none, none is.
proof fn lemma_renamed_at(tags: Seq<Tag>, offset: usize)
    ensures
        match renamed_at(tags, offset) {
            Some(tag) => tags.contains(tag) && points_at(tag, offset),
            None => forall|i: int|
                0 <= i < tags.len() ==> !points_at(#[trigger] tags[i], offset),
        },
    decreases tags.len(),
{
    if tags.len() > 0 {
        let rest = tags.drop_first();
        lemma_renamed_at(rest, offset);
        if points_at(tags[0], offset) {
            assert(tags.contains(tags[0]));
        } else {
            match renamed_at(rest, offset) {
                Some(tag) => {
                    let j = choose|j: int| 0 <= j < rest.len() && rest[j] == tag;
                    assert(tags[j + 1] == tag);
                },
                None => {
                    assert forall|i: int| 0 <= i < tags.len() implies !points_at(
                        #[trigger] tags[i],
                        offset,
                    ) by {
                        if i > 0 {
                            assert(rest[i - 1] == tags[i]);
                        }
                    }
                },
            }
        }
    }
}

/// A file is itself with the names that its elements have.
proof fn lemma_with_its_name(source: Seq<char>, tag: Tag)
    requires
        tree::stands(source, tree::tag_view(tag)),
        tag.name@.len() > 0,
    ensures
        with_name(source, tag, tag.name@) == source,
{
    let whole = text::bytes(source).len() as int;
    let (start, end) = (tag.open_name.0 as int, tag.open_name.1 as int);
    text::lemma_boundary_ends(source);
    text::lemma_cut(source, 0, start);
    text::lemma_cut(source, start, end);
    text::lemma_bytes_concat(text::cut(source, 0, start), tag.name@);
    match tag.close_name {
        Some((from, to)) => {
            let (from, to) = (from as int, to as int);
            text::lemma_cut(source, end, from);
            text::lemma_cut(source, from, to);
            text::lemma_cut(source, to, whole);
            let head = text::cut(source, 0, start) + tag.name@;
            let body = head + text::cut(source, end, from);
            text::lemma_bytes_concat(head, text::cut(source, end, from));
            text::lemma_bytes_concat(body, tag.name@);
            text::lemma_bytes_concat(body + tag.name@, text::cut(source, to, whole));
        },
        None => {
            text::lemma_cut(source, end, whole);
            text::lemma_bytes_concat(
                text::cut(source, 0, start) + tag.name@,
                text::cut(source, end, whole),
            );
        },
    }
    assert(text::bytes(with_name(source, tag, tag.name@)) =~= text::bytes(source));
    text::lemma_bytes_injective(with_name(source, tag, tag.name@), source);
}

/// What the edits of a rename do.
proof fn lemma_edits(source: Seq<char>, tag: Tag, new_name: Seq<char>)
    requires
        tree::stands(source, tree::tag_view(tag)),
        tag.name@.len() > 0,
        text::bytes(source).len() <= u32::MAX,
        document::kept_off_breaks(tag.name@),
    ensures
        ({
            let edits = edits_of(source, tag, new_name);
            &&& forall|k: int|
                0 <= k < edits.len() ==> puts(source, #[trigger] edits[k], tag.name@, new_name)
            &&& document::edited(source, edits) == Some(with_name(source, tag, new_name))
        }),
{
    let edits = edits_of(source, tag, new_name);
    let (start, end) = (tag.open_name.0 as int, tag.open_name.1 as int);
    document::lemma_sayable(source, start, end);
    document::law_edits_read_back(source, start, end, new_name);
    reveal_with_fuel(document::edited_from, 3);
    match tag.close_name {
        Some((from, to)) => {
            document::lemma_sayable(source, from as int, to as int);
            document::law_edits_read_back(source, from as int, to as int, new_name);
            assert(edits.drop_first()[0] == edits[1]);
            assert(edits.drop_first().drop_first().len() == 0);
            assert(document::edited(source, edits)->Some_0 =~= with_name(source, tag, new_name));
        },
        None => {
            assert(edits.drop_first().len() == 0);
        },
    }
}

/// What an answer of ours says.
pub open spec fn renamed_ours(answer: AnswerView) -> JsonView {
    match answer {
        AnswerView::Ours(value) => value,
        _ => JsonView::Null,
    }
}

} // verus!
