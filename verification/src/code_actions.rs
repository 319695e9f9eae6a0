//! Quick fixes.
//!
//! The compiler already computes the hard part: its closest class and closest
//! members back the did-you-mean in `<Frmae>` and in an unknown property.
//! [`crate::analysis`] attaches those candidates to the diagnostic, so here there
//! is nothing to work out — only an edit to offer.
//!
//! Reading the candidates off the diagnostic rather than out of its message is
//! what keeps this from being English-parsing: the message is for a person, the
//! `data` is for us.

use vstd::prelude::*;
use vstd::string::*;

use crate::analysis::{self, ReportView};
use crate::document::{self, edit, Document};
use crate::json::{self, Json, JsonView};
use crate::line_index;
use crate::naming::NamedView;
use crate::project::Project;
use crate::prose::{self, around};
use crate::rename::{self, changes};
use crate::scan::Context;
use crate::text::{self, same};

verus! {

/// What a diagnostic's candidates are for, if it is a kind that can be fixed.
pub open spec fn what_of(data: JsonView) -> Option<Seq<char>> {
    match data.get_str("kind"@) {
        Some(kind) => if kind == "element"@ {
            Some("element"@)
        } else if kind == "member"@ {
            Some("attribute"@)
        } else {
            None
        },
        None => None,
    }
}

fn what(data: &Json) -> (r: Option<&'static str>)
    ensures
        match (r, what_of(data@)) {
            (Some(a), Some(b)) => a@ == b,
            (None, None) => true,
            _ => false,
        },
{
    match data.get_str("kind") {
        Some(kind) => if same(kind, "element") {
            Some("element")
        } else if same(kind, "member") {
            Some("attribute")
        } else {
            None
        },
        None => None,
    }
}

/// One fix: a candidate in place of what was written.
pub open spec fn action_json(
    uri: Seq<char>,
    diagnostic: JsonView,
    what: Seq<char>,
    name: Seq<char>,
    preferred: bool,
    range: JsonView,
) -> JsonView {
    JsonView::object().with(
        "title"@,
        JsonView::Text(prose::between("Change "@, what, " to "@) + name),
    ).with("kind"@, JsonView::Text("quickfix"@)).with(
        "diagnostics"@,
        JsonView::Array(seq![diagnostic]),
    ).with("isPreferred"@, JsonView::Bool(preferred)).with(
        "edit"@,
        rename::changes_json(uri, seq![document::edit_json(range, name)]),
    )
}

fn action(
    uri: &str,
    diagnostic: &Json,
    what: &str,
    name: &str,
    preferred: bool,
    range: &Json,
) -> (r: Json)
    ensures
        r@ == action_json(uri@, diagnostic@, what@, name@, preferred, range@),
{
    let mut title = around("Change ", what, " to ");
    title.append(name);
    let mut edits: Vec<Json> = Vec::new();
    let one = edit(range.copy(), name);
    proof {
        json::lemma_list_view_push(edits@, one);
    }
    edits.push(one);
    assert(json::list_view(edits@) =~= seq![document::edit_json(range@, name@)]);
    Json::object().with("title", Json::Text(title)).with("kind", Json::text("quickfix")).with(
        "diagnostics",
        Json::only(diagnostic.copy()),
    ).with("isPreferred", Json::Bool(preferred)).with("edit", changes(uri, edits))
}

/// A fix for each candidate that is a text. The first suggestion is the
/// compiler's best guess.
pub open spec fn fixes_from(
    uri: Seq<char>,
    diagnostic: JsonView,
    what: Seq<char>,
    range: JsonView,
    candidates: Seq<JsonView>,
    n: int,
) -> Seq<JsonView>
    decreases n,
{
    if n <= 0 {
        Seq::empty()
    } else {
        let before = fixes_from(uri, diagnostic, what, range, candidates, n - 1);
        match candidates[n - 1].str() {
            Some(name) => before.push(
                action_json(
                    uri,
                    diagnostic,
                    what,
                    name,
                    candidates[n - 1] == candidates[0],
                    range,
                ),
            ),
            None => before,
        }
    }
}

/// The fixes for one diagnostic: none, unless it carries candidates, a range and
/// a kind that can be fixed.
pub open spec fn fixes_of(uri: Seq<char>, diagnostic: JsonView) -> Seq<JsonView> {
    match diagnostic.get("data"@) {
        Some(data) => match (data.get("range"@), data.get_array("candidates"@), what_of(data)) {
            (Some(range), Some(candidates), Some(what)) => fixes_from(
                uri,
                diagnostic,
                what,
                range,
                candidates,
                candidates.len() as int,
            ),
            _ => Seq::empty(),
        },
        None => Seq::empty(),
    }
}

/// The fixes for each of some diagnostics, in order.
pub open spec fn all_fixes(uri: Seq<char>, diagnostics: Seq<JsonView>) -> Seq<JsonView>
    decreases diagnostics.len(),
{
    if diagnostics.len() == 0 {
        Seq::empty()
    } else {
        all_fixes(uri, diagnostics.drop_last()) + fixes_of(uri, diagnostics.last())
    }
}

/// Whether a value is a given text.
fn is_text(value: &Json, text: &str) -> (r: bool)
    ensures
        r == (value@ == JsonView::Text(text@)),
{
    match value.as_str() {
        Some(found) => same(found, text),
        None => false,
    }
}

fn fix(uri: &str, diagnostic: &Json, out: &mut Vec<Json>)
    ensures
        json::list_view(final(out)@) == json::list_view(old(out)@) + fixes_of(uri@, diagnostic@),
{
    let ghost before = json::list_view(out@);
    let data = match diagnostic.get("data") {
        Some(data) => data,
        None => {
            assert(before + Seq::<JsonView>::empty() =~= before);
            return;
        },
    };
    let (range, candidates, what) = match (
        data.get("range"),
        data.get_array("candidates"),
        what(data),
    ) {
        (Some(range), Some(candidates), Some(what)) => (range, candidates, what),
        _ => {
            assert(before + Seq::<JsonView>::empty() =~= before);
            return;
        },
    };
    let ghost all = json::list_view(candidates@);
    proof {
        json::lemma_list_view(candidates@);
        assert(before + Seq::<JsonView>::empty() =~= before);
    }
    let mut i: usize = 0;
    while i < candidates.len()
        invariant
            i <= candidates@.len(),
            all == json::list_view(candidates@),
            all.len() == candidates@.len(),
            forall|j: int|
                0 <= j < candidates@.len() ==> #[trigger] all[j] == json::json_view(candidates@[j]),
            json::list_view(out@) == before + fixes_from(
                uri@,
                diagnostic@,
                what@,
                range@,
                all,
                i as int,
            ),
        decreases candidates@.len() - i,
    {
        let ghost so_far = fixes_from(uri@, diagnostic@, what@, range@, all, i as int);
        assert(all[i as int] == candidates@[i as int]@);
        assert(all[0] == candidates@[0]@);
        if let Some(name) = candidates[i].as_str() {
            let preferred = is_text(&candidates[0], name);
            let one = action(uri, diagnostic, what, name, preferred, range);
            proof {
                json::lemma_list_view_push(out@, one);
                assert((before + so_far).push(one@) =~= before + so_far.push(one@));
            }
            out.push(one);
        }
        i = i + 1;
    }
}

/// A fix for every candidate of every diagnostic.
pub fn actions(uri: &str, diagnostics: &[Json]) -> (r: Json)
    ensures
        r@ == JsonView::Array(all_fixes(uri@, json::list_view(diagnostics@))),
{
    let mut out: Vec<Json> = Vec::new();
    let mut i: usize = 0;
    while i < diagnostics.len()
        invariant
            i <= diagnostics@.len(),
            json::list_view(out@) == all_fixes(uri@, json::list_view(diagnostics@.take(i as int))),
        decreases diagnostics@.len() - i,
    {
        proof {
            assert(diagnostics@.take(i + 1) =~= diagnostics@.take(i as int).push(
                diagnostics@[i as int],
            ));
            json::lemma_list_view_push(diagnostics@.take(i as int), diagnostics@[i as int]);
            assert(json::list_view(diagnostics@.take(i + 1)).drop_last() =~= json::list_view(
                diagnostics@.take(i as int),
            ));
        }
        fix(uri, &diagnostics[i], &mut out);
        i = i + 1;
    }
    assert(diagnostics@.take(i as int) =~= diagnostics@);
    Json::Array(out)
}

/// Those of some diagnostics that are ours.
pub open spec fn ours_of(diagnostics: Seq<JsonView>) -> Seq<JsonView>
    decreases diagnostics.len(),
{
    if diagnostics.len() == 0 {
        Seq::empty()
    } else {
        let before = ours_of(diagnostics.drop_last());
        if diagnostics.last().get("source"@) == Some(JsonView::Text("luaux"@)) {
            before.push(diagnostics.last())
        } else {
            before
        }
    }
}

/// The diagnostics an editor sent in `context`, narrowed to ours.
///
/// luau-lsp's diagnostics come back through here too, and its own code actions
/// are forwarded rather than reinvented.
pub fn ours(context: &Json) -> (r: Vec<Json>)
    ensures
        json::list_view(r@) == match context@.get_array("diagnostics"@) {
            Some(diagnostics) => ours_of(diagnostics),
            None => Seq::empty(),
        },
{
    let mut out: Vec<Json> = Vec::new();
    let diagnostics = match context.get_array("diagnostics") {
        Some(diagnostics) => diagnostics,
        None => {
            return out;
        },
    };
    let mut i: usize = 0;
    while i < diagnostics.len()
        invariant
            i <= diagnostics@.len(),
            json::list_view(out@) == ours_of(json::list_view(diagnostics@.take(i as int))),
        decreases diagnostics@.len() - i,
    {
        proof {
            assert(diagnostics@.take(i + 1) =~= diagnostics@.take(i as int).push(
                diagnostics@[i as int],
            ));
            json::lemma_list_view_push(diagnostics@.take(i as int), diagnostics@[i as int]);
            assert(json::list_view(diagnostics@.take(i + 1)).drop_last() =~= json::list_view(
                diagnostics@.take(i as int),
            ));
        }
        let is_ours = match diagnostics[i].get("source") {
            Some(source) => is_text(source, "luaux"),
            None => false,
        };
        if is_ours {
            let one = diagnostics[i].copy();
            proof {
                json::lemma_list_view_push(out@, one);
            }
            out.push(one);
        }
        i = i + 1;
    }
    assert(diagnostics@.take(i as int) =~= diagnostics@);
    out
}

/// Whether a fix answers a diagnostic: it says so, it says what it puts in place of
/// what, and it is offered first if it is the preferred one.
pub open spec fn answers(
    fix: JsonView,
    diagnostic: JsonView,
    name: Seq<char>,
    preferred: bool,
) -> bool {
    &&& fix.get_array("diagnostics"@) == Some(seq![diagnostic])
    &&& fix.get("isPreferred"@) == Some(JsonView::Bool(preferred))
    &&& fix.get_str("kind"@) == Some("quickfix"@)
    &&& fix.get_str("title"@) == Some(
        if diagnostic.get("data"@)->Some_0.get_str("kind"@) == Some("element"@) {
            "Change element to "@ + name
        } else {
            "Change attribute to "@ + name
        },
    )
}

/// What the edits of a fix make of a file.
pub open spec fn fixed(source: Seq<char>, uri: Seq<char>, fix: JsonView) -> Option<Seq<char>> {
    match fix.get("edit"@) {
        Some(edit) => match document::edits_for(edit, uri) {
            Some(edits) => document::edited(source, edits),
            None => None,
        },
        None => None,
    }
}

/// Whether a diagnostic has a fix for each of its candidates, in order, and making
/// one gives the file with that candidate in place of the misspelt name, which is
/// what is underlined, less the `<` of a tag, and with every other byte as it was.
pub open spec fn fixable(source: Seq<char>, uri: Seq<char>, diagnostic: JsonView) -> bool {
    let fixes = fixes_of(uri, diagnostic);
    match diagnostic.get("data"@) {
        Some(data) => match (
            data.get_array("candidates"@),
            document::byte_range_of(source, diagnostic.get("range"@)->Some_0),
        ) {
            (Some(candidates), Some((start, end))) => {
                let from = if analysis::opens_a_tag(text::cut(source, start, end)) {
                    start + 1
                } else {
                    start
                };
                &&& fixes.len() == candidates.len()
                &&& forall|k: int|
                    #![trigger fixes[k]]
                    0 <= k < fixes.len() ==> {
                        &&& fixed(source, uri, fixes[k]) == Some(
                            text::cut(source, 0, from) + candidates[k]->Text_0 + text::cut(
                                source,
                                end,
                                text::bytes(source).len() as int,
                            ),
                        )
                        &&& answers(
                            fixes[k],
                            diagnostic,
                            candidates[k]->Text_0,
                            candidates[k] == candidates[0],
                        )
                    }
            },
            _ => false,
        },
        None => fixes.len() == 0,
    }
}

/// There is a fix for each candidate, and making it replaces the misspelt name and
/// nothing else. The first is the preferred one.
pub proof fn law_a_fix_replaces_the_misspelt_name(
    uri: Seq<char>,
    document: Document,
    project: Project,
    report: ReportView,
    severity: u64,
    context: Context,
    members: Seq<NamedView>,
)
    requires
        text::bytes(document.text@).len() <= u32::MAX,
        line_index::addressable(document.text@, analysis::report_start(document.text@, report)),
        line_index::addressable(document.text@, analysis::report_end(document.text@, report)),
    ensures
        fixable(
            document.text@,
            uri,
            analysis::diagnosed(document, project, report, severity, context, members),
        ),
{
    let diagnostic = analysis::diagnosed(document, project, report, severity, context, members);
    analysis::law_a_suggestion_is_about_the_misspelt_name(
        document,
        project,
        report,
        severity,
        context,
        members,
    );
    lemma_fixable(document.text@, uri, diagnostic);
}

proof fn lemma_fixable(source: Seq<char>, uri: Seq<char>, diagnostic: JsonView)
    requires
        analysis::narrows(source, diagnostic),
    ensures
        fixable(source, uri, diagnostic),
{
    if diagnostic.get("data"@) is Some {
        law_every_candidate_has_its_fix(source, uri, diagnostic);
    }
}

/// A diagnostic of a kind that can be fixed, wherever it came from, has a fix for
/// each of its candidates, in order, and making it puts the candidate in place of
/// the range that the diagnostic carries and leaves every other byte of the file
/// as it was.
pub proof fn law_every_candidate_has_its_fix(
    source: Seq<char>,
    uri: Seq<char>,
    diagnostic: JsonView,
)
    requires
        ({
            let data = diagnostic.get("data"@)->Some_0;
            let candidates = data.get_array("candidates"@)->Some_0;
            &&& diagnostic.get("data"@) is Some
            &&& data.get_array("candidates"@) is Some
            &&& data.get("range"@) is Some
            &&& document::byte_range_of(source, data.get("range"@)->Some_0) matches Some((from, _))
                && from >= 0
            &&& data.get_str("kind"@) == Some("element"@) || data.get_str("kind"@) == Some(
                "member"@,
            )
            &&& forall|k: int| 0 <= k < candidates.len() ==> #[trigger] candidates[k] is Text
        }),
    ensures
        ({
            let data = diagnostic.get("data"@)->Some_0;
            let candidates = data.get_array("candidates"@)->Some_0;
            let (from, to) = document::byte_range_of(source, data.get("range"@)->Some_0)->Some_0;
            let fixes = fixes_of(uri, diagnostic);
            &&& fixes.len() == candidates.len()
            &&& forall|k: int|
                #![trigger fixes[k]]
                0 <= k < fixes.len() ==> {
                    &&& fixed(source, uri, fixes[k]) == Some(
                        document::spliced(source, from, to, candidates[k]->Text_0),
                    )
                    &&& answers(
                            fixes[k],
                            diagnostic,
                            candidates[k]->Text_0,
                            candidates[k] == candidates[0],
                        )
                }
        }),
{
    let data = diagnostic.get("data"@)->Some_0;
    let narrow = data.get("range"@)->Some_0;
    let candidates = data.get_array("candidates"@)->Some_0;
    let (from, to) = document::byte_range_of(source, narrow)->Some_0;
    let what = what_of(data)->Some_0;
    lemma_fixes(uri, diagnostic, what, narrow, candidates, candidates.len() as int);
    let fixes = fixes_of(uri, diagnostic);
    assert forall|k: int| #![trigger fixes[k]] 0 <= k < fixes.len() implies {
        &&& fixed(source, uri, fixes[k]) == Some(
            document::spliced(source, from, to, candidates[k]->Text_0),
        )
        &&& answers(
                            fixes[k],
                            diagnostic,
                            candidates[k]->Text_0,
                            candidates[k] == candidates[0],
                        )
    } by {
        lemma_action(
            source,
            uri,
            diagnostic,
            what,
            candidates[k]->Text_0,
            candidates[k] == candidates[0],
            narrow,
        );
    }
}

/// Where every candidate is a text, each of them has its fix.
proof fn lemma_fixes(
    uri: Seq<char>,
    diagnostic: JsonView,
    what: Seq<char>,
    range: JsonView,
    candidates: Seq<JsonView>,
    n: int,
)
    requires
        0 <= n <= candidates.len(),
        forall|k: int| 0 <= k < candidates.len() ==> #[trigger] candidates[k] is Text,
    ensures
        fixes_from(uri, diagnostic, what, range, candidates, n).len() == n,
        forall|k: int|
            #![trigger fixes_from(uri, diagnostic, what, range, candidates, n)[k]]
            0 <= k < n ==> fixes_from(uri, diagnostic, what, range, candidates, n)[k]
                == action_json(
                uri,
                diagnostic,
                what,
                candidates[k]->Text_0,
                candidates[k] == candidates[0],
                range,
            ),
    decreases n,
{
    if n > 0 {
        lemma_fixes(uri, diagnostic, what, range, candidates, n - 1);
        assert(candidates[n - 1] is Text);
    }
}

/// What one fix does to a file that its range can be read in.
proof fn lemma_action(
    source: Seq<char>,
    uri: Seq<char>,
    diagnostic: JsonView,
    what: Seq<char>,
    name: Seq<char>,
    preferred: bool,
    range: JsonView,
)
    requires
        document::byte_range_of(source, range) matches Some((from, _)) && from >= 0,
        what_of(diagnostic.get("data"@)->Some_0) == Some(what),
    ensures
        ({
            let fix = action_json(uri, diagnostic, what, name, preferred, range);
            let (from, to) = document::byte_range_of(source, range)->Some_0;
            &&& fixed(source, uri, fix) == Some(document::spliced(source, from, to, name))
            &&& answers(fix, diagnostic, name, preferred)
        }),
{
    json::lemma_gets();
    document::lemma_edit_fields(range);
    reveal_strlit("title");
    reveal_strlit("kind");
    reveal_strlit("diagnostics");
    reveal_strlit("isPreferred");
    reveal_strlit("edit");
    assert("title"@.len() == 5 && "kind"@.len() == 4 && "diagnostics"@.len() == 11);
    assert("isPreferred"@.len() == 11 && "edit"@.len() == 4);
    assert("kind"@[0] == 'k' && "edit"@[0] == 'e');
    assert("isPreferred"@[0] == 'i' && "diagnostics"@[0] == 'd');
    let edits = seq![document::edit_json(range, name)];
    assert(edits.drop_first().len() == 0);
    reveal_with_fuel(document::edited_from, 2);
    lemma_titles();
    assert(prose::between("Change "@, what, " to "@) + name =~= if what == "element"@ {
        "Change element to "@ + name
    } else {
        "Change attribute to "@ + name
    });
}

/// How a fix is called.
proof fn lemma_titles()
    ensures
        prose::between("Change "@, "element"@, " to "@) == "Change element to "@,
        prose::between("Change "@, "attribute"@, " to "@) == "Change attribute to "@,
        "element"@ != "attribute"@,
        "element"@ != "member"@,
{
    reveal_strlit("Change ");
    reveal_strlit(" to ");
    reveal_strlit("element");
    reveal_strlit("attribute");
    reveal_strlit("member");
    reveal_strlit("Change element to ");
    reveal_strlit("Change attribute to ");
    assert(prose::between("Change "@, "element"@, " to "@) =~= "Change element to "@);
    assert(prose::between("Change "@, "attribute"@, " to "@) =~= "Change attribute to "@);
    assert("element"@.len() == 7 && "attribute"@.len() == 9 && "member"@.len() == 6);
}

/// Of the diagnostics that an editor sends, those that say they are ours are kept,
/// in order, and no others.
pub proof fn law_only_ours_are_kept(diagnostics: Seq<JsonView>)
    ensures
        forall|i: int|
            0 <= i < ours_of(diagnostics).len() ==> (#[trigger] ours_of(diagnostics)[i]).get_str(
                "source"@,
            ) == Some("luaux"@) && diagnostics.contains(ours_of(diagnostics)[i]),
        forall|i: int|
            0 <= i < diagnostics.len() && (#[trigger] diagnostics[i]).get_str("source"@) == Some(
                "luaux"@,
            ) ==> ours_of(diagnostics).contains(diagnostics[i]),
    decreases diagnostics.len(),
{
    if diagnostics.len() > 0 {
        let rest = diagnostics.drop_last();
        let before = ours_of(rest);
        let all = ours_of(diagnostics);
        law_only_ours_are_kept(rest);
        assert forall|i: int| 0 <= i < all.len() implies (#[trigger] all[i]).get_str("source"@)
            == Some("luaux"@) && diagnostics.contains(all[i]) by {
            if i < before.len() {
                assert(before[i] == all[i]);
                let j = choose|j: int| 0 <= j < rest.len() && rest[j] == before[i];
                assert(diagnostics[j] == all[i]);
            } else {
                assert(diagnostics[diagnostics.len() - 1] == all[i]);
            }
        }
        assert forall|i: int|
            0 <= i < diagnostics.len() && (#[trigger] diagnostics[i]).get_str("source"@) == Some(
                "luaux"@,
            ) implies all.contains(diagnostics[i]) by {
            if i < rest.len() {
                assert(rest[i] == diagnostics[i]);
                assert(before.contains(rest[i]));
                let j = choose|j: int| 0 <= j < before.len() && before[j] == rest[i];
                assert(all[j] == diagnostics[i]);
            } else {
                assert(all[before.len() as int] == diagnostics[i]);
            }
        }
    }
}

/// What is offered for some diagnostics is every fix for each of them, and nothing
/// else.
pub proof fn law_every_diagnostic_has_its_fixes(uri: Seq<char>, diagnostics: Seq<JsonView>)
    ensures
        forall|i: int, k: int|
            #![trigger fixes_of(uri, diagnostics[i])[k]]
            0 <= i < diagnostics.len() && 0 <= k < fixes_of(uri, diagnostics[i]).len()
                ==> all_fixes(uri, diagnostics).contains(fixes_of(uri, diagnostics[i])[k]),
        forall|k: int|
            0 <= k < all_fixes(uri, diagnostics).len() ==> exists|i: int|
                0 <= i < diagnostics.len() && fixes_of(
                    uri,
                    #[trigger] diagnostics[i],
                ).contains(#[trigger] all_fixes(uri, diagnostics)[k]),
    decreases diagnostics.len(),
{
    if diagnostics.len() > 0 {
        let rest = diagnostics.drop_last();
        let before = all_fixes(uri, rest);
        let mine = fixes_of(uri, diagnostics.last());
        let all = all_fixes(uri, diagnostics);
        law_every_diagnostic_has_its_fixes(uri, rest);
        assert forall|i: int, k: int|
            #![trigger fixes_of(uri, diagnostics[i])[k]]
            0 <= i < diagnostics.len() && 0 <= k < fixes_of(
                uri,
                diagnostics[i],
            ).len() implies all.contains(fixes_of(uri, diagnostics[i])[k]) by {
            if i < rest.len() {
                assert(rest[i] == diagnostics[i]);
                assert(before.contains(fixes_of(uri, rest[i])[k]));
                let j = choose|j: int| 0 <= j < before.len() && before[j] == fixes_of(uri, rest[i])[k];
                assert(all[j] == before[j]);
            } else {
                assert(all[before.len() + k] == mine[k]);
            }
        }
        assert forall|k: int| 0 <= k < all.len() implies exists|i: int|
            0 <= i < diagnostics.len() && fixes_of(uri, #[trigger] diagnostics[i]).contains(
                #[trigger] all[k],
            ) by {
            if k < before.len() {
                assert(before[k] == all[k]);
                let i = choose|i: int|
                    0 <= i < rest.len() && fixes_of(uri, #[trigger] rest[i]).contains(before[k]);
                assert(rest[i] == diagnostics[i]);
                assert(fixes_of(uri, diagnostics[i]).contains(all[k]));
            } else {
                assert(mine[k - before.len()] == all[k]);
                assert(fixes_of(uri, diagnostics[diagnostics.len() - 1]).contains(all[k]));
            }
        }
    }
}

} // verus!
