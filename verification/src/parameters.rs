//! What holds of the parameter lists of events, and of splitting any list at its
//! top level.

use vstd::prelude::*;
use vstd::string::*;

use crate::api;
use crate::pieces;
use crate::prose;
use crate::text::{self, Edge};

verus! {

/// Whether no comma of a text stands outside brackets.
spec fn solid(text: Seq<char>) -> bool {
    forall|i: int| 0 <= i < text.len() && #[trigger] text[i] == ',' ==> api::depth(text, i) != 0
}

/// How deep in brackets a text ends.
spec fn level(text: Seq<char>) -> int {
    api::depth(text, text.len() as int)
}

/// What comes after does not change how deep a character stands.
proof fn lemma_depth_before(text: Seq<char>, more: Seq<char>, i: int)
    requires
        0 <= i <= text.len(),
    ensures
        api::depth(text + more, i) == api::depth(text, i),
    decreases i,
{
    if i > 0 {
        lemma_depth_before(text, more, i - 1);
    }
}

/// What comes before adds to it, unless it ends in half an arrow.
proof fn lemma_depth_after(head: Seq<char>, text: Seq<char>, i: int)
    requires
        0 <= i <= text.len(),
        head.len() > 0 ==> head.last() != '-',
    ensures
        api::depth(head + text, head.len() + i) == level(head) + api::depth(text, i),
    decreases i,
{
    if i == 0 {
        lemma_depth_before(head, text, head.len() as int);
    } else {
        lemma_depth_after(head, text, i - 1);
        let whole = head + text;
        assert(whole[head.len() + i - 1] == text[i - 1]);
        if i > 1 {
            assert(whole[head.len() + i - 2] == text[i - 2]);
        } else if head.len() > 0 {
            assert(whole[head.len() - 1] == head.last());
        }
    }
}

/// Characters that split nothing are read over.
proof fn lemma_read_over(text: Seq<char>, start: int, i: int, j: int)
    requires
        0 <= start <= i <= j <= text.len(),
        forall|k: int| i <= k < j && #[trigger] text[k] == ',' ==> api::depth(text, k) != 0,
    ensures
        api::segments(text, start, i) == api::segments(text, start, j),
    decreases j - i,
{
    if i < j {
        lemma_read_over(text, start, i + 1, j);
    }
}

/// What follows a balanced beginning is split as it is on its own.
proof fn lemma_segments_after(head: Seq<char>, text: Seq<char>, start: int, i: int)
    requires
        0 <= start <= i <= text.len(),
        level(head) == 0,
        head.len() > 0,
        head.last() != '-',
    ensures
        api::segments(head + text, head.len() + start, head.len() + i) == api::segments(
            text,
            start,
            i,
        ),
    decreases text.len() - i,
{
    let whole = head + text;
    let n = head.len() as int;
    lemma_depth_after(head, text, i);
    if i < text.len() {
        assert(whole[n + i] == text[i]);
        assert(whole.subrange(n + start, n + i) =~= text.subrange(start, i));
        if text[i] == ',' && api::depth(text, i) == 0 {
            lemma_segments_after(head, text, i + 1, i + 1);
        } else {
            lemma_segments_after(head, text, start, i + 1);
        }
    } else {
        assert(whole.subrange(n + start, whole.len() as int) =~= text.subrange(
            start,
            text.len() as int,
        ));
    }
}

/// A text without a comma at its top level is one part.
proof fn lemma_solid(text: Seq<char>)
    requires
        solid(text),
    ensures
        api::top_level(text) == api::tidied_one(text),
{
    lemma_read_over(text, 0, 0, text.len() as int);
    assert(text.subrange(0, text.len() as int) =~= text);
    reveal_with_fuel(api::tidied, 2);
    assert(api::tidied(seq![text]) =~= api::tidied_one(text));
}

/// A first part and a comma are split off.
proof fn lemma_split_off(first: Seq<char>, rest: Seq<char>)
    requires
        solid(first),
        level(first) == 0,
    ensures
        api::top_level(first + seq![','] + rest) == api::tidied_one(first) + api::top_level(rest),
{
    let head = first + seq![','];
    let whole = head + rest;
    let n = first.len() as int;
    assert(whole =~= first + (seq![','] + rest));
    assert forall|k: int| 0 <= k < n && #[trigger] whole[k] == ',' implies api::depth(whole, k)
        != 0 by {
        lemma_depth_before(first, seq![','] + rest, k);
        assert(first[k] == ',');
    }
    lemma_read_over(whole, 0, 0, n);
    lemma_depth_before(first, seq![','] + rest, n);
    lemma_depth_before(first, seq![','], n);
    assert(whole[n] == ',');
    assert(whole.subrange(0, n) =~= first);
    lemma_segments_after(head, rest, 0, 0);
    let more = api::segments(rest, 0, 0);
    assert((seq![first] + more).drop_first() =~= more);
    assert(api::tidied(seq![first] + more) =~= api::tidied_one(first) + api::tidied(more));
}

/// Where the first comma at the top level is.
proof fn lemma_first_comma(text: Seq<char>) -> (k: int)
    ensures
        solid(text) || {
            &&& 0 <= k < text.len()
            &&& text[k] == ','
            &&& solid(text.take(k))
            &&& level(text.take(k)) == 0
            &&& text == text.take(k) + seq![','] + text.skip(k + 1)
        },
    decreases text.len(),
{
    if text.len() == 0 {
        0
    } else {
        let front = text.drop_last();
        let last = seq![text.last()];
        assert(text =~= front + last);
        let k = lemma_first_comma(front);
        if solid(front) {
            let n = front.len() as int;
            lemma_depth_before(front, last, n);
            assert(text.take(n) =~= front);
            assert(text =~= front + last + text.skip(n + 1));
            assert forall|i: int| 0 <= i < n && #[trigger] text[i] == ',' implies api::depth(
                text,
                i,
            ) != 0 by {
                lemma_depth_before(front, last, i);
                assert(front[i] == ',');
            }
            n
        } else {
            assert(text.take(k) =~= front.take(k));
            assert(text =~= text.take(k) + seq![','] + text.skip(k + 1));
            k
        }
    }
}

/// Whitespace is no bracket and no comma.
proof fn lemma_white(c: char)
    requires
        text::white(c),
    ensures
        c != ',' && c != '-' && c != '<' && c != '(' && c != '{' && c != '[' && c != '>' && c != ')'
            && c != '}' && c != ']',
{
}

/// Whitespace before a text does not change how it nests.
proof fn lemma_white_before(c: char, text: Seq<char>)
    requires
        text::white(c),
    ensures
        level(seq![c] + text) == level(text),
        solid(seq![c] + text) == solid(text),
{
    let head = seq![c];
    let whole = head + text;
    lemma_white(c);
    reveal_with_fuel(api::depth, 2);
    assert(level(head) == 0);
    lemma_depth_after(head, text, text.len() as int);
    assert forall|i: int| 0 <= i < text.len() implies api::depth(whole, i + 1) == api::depth(
        text,
        i,
    ) && whole[i + 1] == #[trigger] text[i] by {
        lemma_depth_after(head, text, i);
    }
    if solid(text) {
        assert forall|i: int| 0 <= i < whole.len() && #[trigger] whole[i] == ',' implies api::depth(
            whole,
            i,
        ) != 0 by {
            if i > 0 {
                assert(text[i - 1] == ',');
            }
        }
    }
    if solid(whole) {
        assert forall|i: int| 0 <= i < text.len() && #[trigger] text[i] == ',' implies api::depth(
            text,
            i,
        ) != 0 by {
            assert(whole[i + 1] == ',');
        }
    }
}

/// Nor does whitespace after it.
proof fn lemma_white_after(text: Seq<char>, c: char)
    requires
        text::white(c),
    ensures
        level(text + seq![c]) == level(text),
        solid(text + seq![c]) == solid(text),
{
    let whole = text + seq![c];
    lemma_white(c);
    lemma_depth_before(text, seq![c], text.len() as int);
    assert forall|i: int| 0 <= i < text.len() implies api::depth(whole, i) == api::depth(text, i)
        && whole[i] == #[trigger] text[i] by {
        lemma_depth_before(text, seq![c], i);
    }
    if solid(text) {
        assert forall|i: int| 0 <= i < whole.len() && #[trigger] whole[i] == ',' implies api::depth(
            whole,
            i,
        ) != 0 by {
            if i < text.len() {
                assert(text[i] == ',');
            }
        }
    }
    if solid(whole) {
        assert forall|i: int| 0 <= i < text.len() && #[trigger] text[i] == ',' implies api::depth(
            text,
            i,
        ) != 0 by {
            assert(whole[i] == ',');
        }
    }
}

/// Trimming does not change how a text nests.
proof fn lemma_trimmed_nests(text: Seq<char>)
    ensures
        level(text::trimmed(text, Edge::White)) == level(text),
        solid(text) ==> solid(text::trimmed(text, Edge::White)),
    decreases text.len(),
{
    if text.len() > 0 {
        if text::white(text[0]) {
            text::lemma_trimmed_first(text, Edge::White);
            assert(text =~= seq![text[0]] + text.drop_first());
            lemma_white_before(text[0], text.drop_first());
            lemma_trimmed_nests(text.drop_first());
        } else if text::white(text.last()) {
            text::lemma_trimmed_last(text, Edge::White);
            assert(text =~= text.drop_last() + seq![text.last()]);
            lemma_white_after(text.drop_last(), text.last());
            lemma_trimmed_nests(text.drop_last());
        } else {
            text::lemma_untrimmed(text, Edge::White);
        }
    } else {
        assert(text::trimmed(text, Edge::White) =~= text);
    }
}

/// Whitespace before a list changes none of its parts.
proof fn lemma_list_after_white(c: char, text: Seq<char>)
    requires
        text::white(c),
    ensures
        api::top_level(seq![c] + text) == api::top_level(text),
{
    let whole = seq![c] + text;
    let k = lemma_first_comma(text);
    if solid(text) {
        lemma_white_before(c, text);
        lemma_solid(text);
        lemma_solid(whole);
        assert(whole.drop_first() =~= text);
        text::lemma_trimmed_first(whole, Edge::White);
    } else {
        let first = text.take(k);
        let rest = text.skip(k + 1);
        let padded = seq![c] + first;
        lemma_white_before(c, first);
        lemma_split_off(first, rest);
        lemma_split_off(padded, rest);
        assert(whole =~= padded + seq![','] + rest);
        assert(padded.drop_first() =~= first);
        text::lemma_trimmed_first(padded, Edge::White);
    }
}

/// Nor does whitespace after it.
proof fn lemma_list_before_white(text: Seq<char>, c: char)
    requires
        text::white(c),
    ensures
        api::top_level(text + seq![c]) == api::top_level(text),
    decreases text.len(),
{
    let whole = text + seq![c];
    let k = lemma_first_comma(text);
    if solid(text) {
        lemma_white_after(text, c);
        lemma_solid(text);
        lemma_solid(whole);
        assert(whole.drop_last() =~= text);
        text::lemma_trimmed_last(whole, Edge::White);
    } else {
        let first = text.take(k);
        let rest = text.skip(k + 1);
        lemma_split_off(first, rest);
        lemma_split_off(first, rest + seq![c]);
        assert(whole =~= first + seq![','] + (rest + seq![c]));
        lemma_list_before_white(rest, c);
    }
}

/// So a list may be trimmed before it is split.
proof fn lemma_trimmed_list(text: Seq<char>)
    ensures
        api::top_level(text::trimmed(text, Edge::White)) == api::top_level(text),
    decreases text.len(),
{
    if text.len() > 0 {
        if text::white(text[0]) {
            text::lemma_trimmed_first(text, Edge::White);
            assert(text =~= seq![text[0]] + text.drop_first());
            lemma_list_after_white(text[0], text.drop_first());
            lemma_trimmed_list(text.drop_first());
        } else if text::white(text.last()) {
            text::lemma_trimmed_last(text, Edge::White);
            assert(text =~= text.drop_last() + seq![text.last()]);
            lemma_list_before_white(text.drop_last(), text.last());
            lemma_trimmed_list(text.drop_last());
        } else {
            text::lemma_untrimmed(text, Edge::White);
        }
    } else {
        assert(text::trimmed(text, Edge::White) =~= text);
    }
}

/// A text joined from a first part and others.
proof fn lemma_joined_first(first: Seq<char>, rest: Seq<Seq<char>>, separator: Seq<char>)
    requires
        rest.len() > 0,
    ensures
        prose::joined(seq![first] + rest, separator) == first + separator + prose::joined(
            rest,
            separator,
        ),
    decreases rest.len(),
{
    let all = seq![first] + rest;
    assert(all.drop_last() =~= seq![first] + rest.drop_last());
    assert(all.last() == rest.last());
    if rest.len() == 1 {
        reveal_with_fuel(prose::joined, 2);
        assert(all.drop_last() =~= seq![first]);
        assert(prose::joined(all, separator) =~= first + separator + rest[0]);
    } else {
        lemma_joined_first(first, rest.drop_last(), separator);
        assert(prose::joined(all, separator) =~= first + separator + prose::joined(
            rest,
            separator,
        ));
    }
}

/// Every part of a list is trimmed, and something is left of it.
pub proof fn law_parts_are_trimmed(text: Seq<char>, i: int)
    requires
        0 <= i < api::top_level(text).len(),
    ensures
        api::top_level(text)[i].len() > 0,
        text::trimmed(api::top_level(text)[i], Edge::White) == api::top_level(text)[i],
{
    lemma_tidied(api::segments(text, 0, 0), i);
}

proof fn lemma_tidied(pieces: Seq<Seq<char>>, i: int)
    requires
        0 <= i < api::tidied(pieces).len(),
    ensures
        api::tidied(pieces)[i].len() > 0,
        text::trimmed(api::tidied(pieces)[i], Edge::White) == api::tidied(pieces)[i],
    decreases pieces.len(),
{
    let rest = api::tidied(pieces.drop_first());
    let piece = text::trimmed(pieces[0], Edge::White);
    text::lemma_trimmed_ends(pieces[0], Edge::White);
    if piece.len() == 0 {
        lemma_tidied(pieces.drop_first(), i);
    } else if i > 0 {
        assert(api::tidied(pieces)[i] == rest[i - 1]);
        lemma_tidied(pieces.drop_first(), i - 1);
    }
}

/// The parts of a list, joined again, are a list of the same parts.
pub proof fn law_parts_are_split_again(text: Seq<char>)
    ensures
        api::top_level(prose::joined(api::top_level(text), ", "@)) == api::top_level(text),
    decreases text.len(),
{
    let parts = api::top_level(text);
    let k = lemma_first_comma(text);
    reveal_strlit(", ");
    assert(", "@ =~= seq![','] + seq![' ']);
    if solid(text) {
        lemma_solid(text);
        lemma_alone(text);
    } else {
        let first = text.take(k);
        let rest = text.skip(k + 1);
        let piece = text::trimmed(first, Edge::White);
        let more = api::top_level(rest);
        lemma_split_off(first, rest);
        law_parts_are_split_again(rest);
        if piece.len() == 0 {
            assert(parts =~= more);
        } else if more.len() == 0 {
            assert(parts =~= api::tidied_one(first));
            lemma_alone(first);
        } else {
            let others = prose::joined(more, ", "@);
            assert(parts == seq![piece] + more);
            lemma_joined_first(piece, more, ", "@);
            lemma_trimmed_nests(first);
            text::lemma_trimmed_ends(first, Edge::White);
            assert(prose::joined(parts, ", "@) =~= piece + seq![','] + (seq![' '] + others));
            lemma_split_off(piece, seq![' '] + others);
            lemma_list_after_white(' ', others);
        }
    }
}

/// That holds of a list with one part or none.
proof fn lemma_alone(text: Seq<char>)
    requires
        solid(text),
    ensures
        api::top_level(prose::joined(api::tidied_one(text), ", "@)) == api::tidied_one(text),
{
    let piece = text::trimmed(text, Edge::White);
    lemma_trimmed_nests(text);
    text::lemma_trimmed_ends(text, Edge::White);
    lemma_solid(piece);
    if piece.len() == 0 {
        assert(prose::joined(api::tidied_one(text), ", "@) =~= piece);
    }
}

/// Whether a text stands in parentheses once trimmed.
pub open spec fn wrapped(text: Seq<char>) -> bool {
    let inner = text::trimmed(text, Edge::White);
    inner.len() >= 2 && inner[0] == '(' && inner.last() == ')'
}

/// Both spellings of an event's type name the same parameters: with parentheses
/// around them and without.
pub proof fn law_both_spellings_name_the_same_parameters(list: Seq<char>)
    requires
        !wrapped(list),
    ensures
        api::parameters_of("RBXScriptSignal<("@ + list + ")>"@) == Some(api::top_level(list)),
        api::parameters_of("RBXScriptSignal<"@ + list + ">"@) == Some(api::top_level(list)),
{
    reveal_strlit("RBXScriptSignal<(");
    reveal_strlit("RBXScriptSignal<");
    reveal_strlit(")>");
    reveal_strlit(">");
    reveal_strlit("(");
    reveal_strlit(")");
    let prefix = "RBXScriptSignal<"@;
    let newer = "RBXScriptSignal<("@ + list + ")>"@;
    let older = prefix + list + ">"@;
    let packed = seq!['('] + list + seq![')'];
    assert(newer =~= prefix + (packed + ">"@));
    assert(older =~= prefix + (list + ">"@));
    lemma_unprefixed(prefix, packed + ">"@);
    lemma_unprefixed(prefix, list + ">"@);
    pieces::lemma_one_char_end(packed + ">"@, ">"@, '>');
    pieces::lemma_one_char_end(list + ">"@, ">"@, '>');
    assert((packed + ">"@).drop_last() =~= packed);
    assert((list + ">"@).drop_last() =~= list);
    text::lemma_untrimmed(packed, Edge::White);
    pieces::lemma_one_char(packed, "("@, '(');
    pieces::lemma_one_char_end(packed.drop_first(), ")"@, ')');
    assert(packed.drop_first().drop_last() =~= list);
    let inner = text::trimmed(list, Edge::White);
    pieces::lemma_one_char(inner, "("@, '(');
    if inner.len() > 0 {
        pieces::lemma_one_char_end(inner.drop_first(), ")"@, ')');
        if inner.len() > 1 {
            assert(inner.drop_first().last() == inner.last());
        }
    }
    assert(api::unwrapped(inner) == inner);
    lemma_trimmed_list(list);
}

proof fn lemma_unprefixed(prefix: Seq<char>, rest: Seq<char>)
    ensures
        pieces::stripped(prefix + rest, prefix) == Some(rest),
{
    assert((prefix + rest).take(prefix.len() as int) =~= prefix);
    assert((prefix + rest).skip(prefix.len() as int) =~= rest);
}

} // verus!
