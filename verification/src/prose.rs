//! Putting texts together for a person to read.

use vstd::prelude::*;
use vstd::string::*;

use crate::json::{Json, JsonView};
use crate::pieces::{self, first_char, strip_prefix};

verus! {

/// One text between two others.
pub open spec fn between(before: Seq<char>, inner: Seq<char>, after: Seq<char>) -> Seq<char> {
    before + inner + after
}

pub fn around(before: &str, inner: &str, after: &str) -> (r: String)
    ensures
        r@ == between(before@, inner@, after@),
{
    let mut out = before.to_owned();
    out.append(inner);
    out.append(after);
    out
}

/// Luau, as a block of markdown.
pub open spec fn fenced(luau: Seq<char>) -> Seq<char> {
    between("```luau\n"@, luau, "\n```"@)
}

pub fn fence(luau: &str) -> (r: String)
    ensures
        r@ == fenced(luau@),
{
    around("```luau\n", luau, "\n```")
}

/// Markdown for an editor to show, as JSON.
pub open spec fn markdown_json(text: Seq<char>) -> JsonView {
    JsonView::object().with("kind"@, JsonView::Text("markdown"@)).with(
        "value"@,
        JsonView::Text(text),
    )
}

pub fn markdown(text: &str) -> (r: Json)
    ensures
        r@ == markdown_json(text@),
{
    Json::object().with("kind", Json::text("markdown")).with("value", Json::text(text))
}

/// Texts one after the other, with another between each two.
pub open spec fn joined(list: Seq<Seq<char>>, separator: Seq<char>) -> Seq<char>
    decreases list.len(),
{
    if list.len() == 0 {
        Seq::empty()
    } else if list.len() == 1 {
        list[0]
    } else {
        joined(list.drop_last(), separator) + separator + list.last()
    }
}

pub fn join(list: &Vec<String>, separator: &str) -> (r: String)
    ensures
        r@ == joined(list@.map_values(|one: String| one@), separator@),
{
    let ghost all = list@.map_values(|one: String| one@);
    let mut out = String::new();
    let mut i: usize = 0;
    while i < list.len()
        invariant
            i <= list@.len(),
            all == list@.map_values(|one: String| one@),
            out@ == joined(all.take(i as int), separator@),
        decreases list@.len() - i,
    {
        proof {
            assert(all.take(i + 1).drop_last() =~= all.take(i as int));
            assert(all.take(i + 1).last() == list@[i as int]@);
        }
        if i > 0 {
            out.append(separator);
            out.append(list[i].as_str());
        } else {
            assert(out@ =~= Seq::<char>::empty());
            out.append(list[i].as_str());
            assert(out@ =~= list@[i as int]@);
        }
        i = i + 1;
    }
    assert(all.take(i as int) =~= all);
    out
}

/// A text with each occurrence of another replaced, first to last; what replaces
/// one is not looked at again.
pub open spec fn replaced(text: Seq<char>, from: Seq<char>, to: Seq<char>) -> Seq<char>
    decreases text.len(),
{
    if text.len() == 0 || from.len() == 0 {
        text
    } else {
        match pieces::stripped(text, from) {
            Some(rest) => if rest.len() < text.len() {
                to + replaced(rest, from, to)
            } else {
                text
            },
            None => seq![text[0]] + replaced(text.drop_first(), from, to),
        }
    }
}

pub fn replace(text: &str, from: &str, to: &str) -> (r: String)
    ensures
        r@ == replaced(text@, from@, to@),
{
    let mut out = String::new();
    if from.is_empty() {
        out.append(text);
        assert(out@ =~= text@);
        return out;
    }
    let mut rest: &str = text;
    assert(replaced(text@, from@, to@) =~= out@ + replaced(rest@, from@, to@));
    loop
        invariant
            from@.len() > 0,
            replaced(text@, from@, to@) == out@ + replaced(rest@, from@, to@),
        decreases rest@.len(),
    {
        match first_char(rest) {
            None => {
                assert(out@ + replaced(rest@, from@, to@) =~= out@);
                return out;
            },
            Some((first, after)) => match strip_prefix(rest, from) {
                Some(shorter) => {
                    let ghost before = out@;
                    out.append(to);
                    proof {
                        assert(shorter@.len() < rest@.len());
                        assert(before + (to@ + replaced(shorter@, from@, to@)) =~= out@ + replaced(
                            shorter@,
                            from@,
                            to@,
                        ));
                    }
                    rest = shorter;
                },
                None => {
                    let ghost before = out@;
                    out.append(first);
                    proof {
                        assert(first@ =~= seq![rest@[0]]);
                        assert(before + (seq![rest@[0]] + replaced(after@, from@, to@)) =~= out@
                            + replaced(after@, from@, to@));
                    }
                    rest = after;
                },
            },
        }
    }
}

} // verus!
