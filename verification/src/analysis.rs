//! Compiling on change: our diagnostics, and the output the proxy forwards.
//!
//! Two things come out of one compile. The diagnostics need nothing else — no
//! source map, no luau-lsp — which is why they land first and cheapest. The
//! generated `.luau` and its map are what every forwarded feature stands on.
//!
//! A file that does not compile still has to be useful. Our own features never
//! touch the AST, and forwarding falls back to the last successful compile —
//! marked stale rather than passed off as current, and dropped once the edit is
//! big enough that the map cannot still be true.

use vstd::prelude::*;
use vstd::string::*;

use luaux::config::Config;

use crate::classes::{self, closest_class, closest_members};
use crate::document::{self, Document};
use crate::json::{self, Json, JsonView, NumberView};
use crate::line_index::{self, ceil_boundary, floor_boundary};
use crate::luau::{self, find_misfit};
use crate::map_builder::{self, build};
use crate::naming::{self, look_up, Named, NamedView};
use crate::pieces::{self, strip_prefix};
use crate::project::Project;
use crate::regions::{self, ending, is_trailing_off, Ending};
use crate::resolving::{self, resolve_class};
use crate::scan::Context;
use crate::settings::{self, factory};
use crate::snags::{self, find_snag, Snag};
use crate::sourcemap::SourceMap;
use crate::text::{self, length, same, trim, Edge};

verus! {

/// One thing the compiler has to say about a file.
#[derive(Debug)]
pub struct Report {
    pub message: String,
    pub offset: usize,
    pub length: usize,
    pub help: Option<String>,
}

/// What the compiler made of a file.
#[derive(Debug)]
pub enum Compilation {
    /// Output, even where there are errors: a bad tag costs its own diagnostic,
    /// not the rest of the file's.
    Done { output: String, errors: Vec<Report>, warnings: Vec<Report> },
    /// No output: there is no tree to build one from.
    Failed(Report),
}

/// A report, as plain values.
pub struct ReportView {
    pub message: Seq<char>,
    pub offset: usize,
    pub length: usize,
    pub help: Option<Seq<char>>,
}

/// What the compiler made of a file, as plain values.
pub enum CompilationView {
    Done { output: Seq<char>, errors: Seq<ReportView>, warnings: Seq<ReportView> },
    Failed(ReportView),
}

impl View for Report {
    type V = ReportView;

    open spec fn view(&self) -> ReportView {
        ReportView {
            message: self.message@,
            offset: self.offset,
            length: self.length,
            help: text::view_of(self.help),
        }
    }
}

pub open spec fn report_views(reports: Seq<Report>) -> Seq<ReportView> {
    reports.map_values(|report: Report| report@)
}

impl View for Compilation {
    type V = CompilationView;

    open spec fn view(&self) -> CompilationView {
        match *self {
            Compilation::Done { output, errors, warnings } => CompilationView::Done {
                output: output@,
                errors: report_views(errors@),
                warnings: report_views(warnings@),
            },
            Compilation::Failed(report) => CompilationView::Failed(report@),
        }
    }
}

/// What the compiler may make of each text under some settings. There is more
/// than one answer only where an attribute has more than one reading.
pub uninterp spec fn compilations(config: Config) -> Map<Seq<char>, Set<CompilationView>>;

/// A report that points at a place.
pub open spec fn pointing(message: Seq<char>, offset: int) -> ReportView {
    ReportView { message, offset: offset as usize, length: 0, help: None }
}

fn point(message: &str, offset: usize) -> (r: Report)
    ensures
        r@ == pointing(message@, offset as int),
{
    Report { message: message.to_owned(), offset, length: 0, help: None }
}

/// What is said of a text that is not handed to the compiler.
///
/// One that does not lex or parse is: it is turned down before anything else is
/// done with it. Of the others, the markup may not come to a comment whose `-->`
/// overlaps its `<!--`, the Luau around it has to be such that the Luau parser
/// can take it, and what stands inside the markup as [`snags`] says. A `#!` line
/// may not be followed by nothing but comments, one of them not closed.
pub open spec fn refused(config: Config, source: Seq<char>) -> Option<ReportView> {
    let blanked = resolving::blanked_file(source);
    let code = resolving::code_of(blanked);
    match regions::ending_of(source) {
        Ending::Broken => None,
        Ending::Stuck(at) => Some(pointing("unterminated `<!--` comment"@, at as int)),
        Ending::Done => if code != blanked && regions::trails_off(code, 0) {
            Some(pointing("unterminated comment"@, 0))
        } else {
            match luau::misfit_of(code, false) {
                Some(at) => Some(
                    pointing(
                        "unexpected character"@,
                        text::bytes(blanked).len() - text::bytes(code).len() + at,
                    ),
                ),
                None => if luau::misfit_of(settings::factory_of(config), true) is Some {
                    Some(pointing("[factory] create is not something luaux can call"@, 0))
                } else {
                    match snags::snag_in(source, false) {
                        Some(Snag::Comment(at)) => Some(
                            pointing("unterminated `<!--` comment"@, at as int),
                        ),
                        Some(Snag::Character(at)) => Some(
                            pointing("unexpected character"@, at as int),
                        ),
                        None => None,
                    }
                },
            }
        },
    }
}

fn refuse(source: &str, config: &Config) -> (r: Option<Report>)
    ensures
        match (r, refused(*config, source@)) {
            (Some(a), Some(b)) => a@ == b,
            (None, None) => true,
            _ => false,
        },
{
    match ending(source) {
        Ending::Broken => {
            return None;
        },
        Ending::Stuck(at) => {
            return Some(point("unterminated `<!--` comment", at));
        },
        Ending::Done => {},
    }
    let blanked = resolving::blank(source);
    let code = resolving::code(blanked.as_str());
    if !same(code.as_str(), blanked.as_str()) && is_trailing_off(code.as_str()) {
        return Some(point("unterminated comment", 0));
    }
    match find_misfit(code.as_str(), false) {
        Some(at) => {
            proof {
                resolving::lemma_code(blanked@);
            }
            let before: usize = length(blanked.as_str()) - length(code.as_str());
            return Some(point("unexpected character", before + at));
        },
        None => {},
    }
    if find_misfit(factory(config).as_str(), true).is_some() {
        return Some(point("[factory] create is not something luaux can call", 0));
    }
    match find_snag(source, false) {
        Some(Snag::Comment(at)) => Some(point("unterminated `<!--` comment", at)),
        Some(Snag::Character(at)) => Some(point("unexpected character", at)),
        None => None,
    }
}

/// Whether a text may come to this.
pub open spec fn comes_to(config: Config, source: Seq<char>, compilation: CompilationView) -> bool {
    match refused(config, source) {
        Some(report) => compilation == CompilationView::Failed(report),
        None => compilations(config)[source].contains(compilation),
    }
}

/// Compiles a text, if it can be handed to the compiler.
pub fn compile_text(source: &str, config: &Config) -> (r: Compilation)
    ensures
        comes_to(*config, source@, r@),
{
    match refuse(source, config) {
        Some(report) => Compilation::Failed(report),
        None => compile_recovering(source, config),
    }
}

/// [`luaux::compile::compile_recovering`] with the Vide backend: one of the
/// answers the compiler may give.
///
/// The markup parser slices between a comment's `<!--` and its `-->`, so the two
/// may not overlap in anything it reads. The compiler hands it the regions of the
/// file in turn, up to the first that does not parse, and then what stands inside
/// those. The Luau parser gets the file with its regions blanked, and every
/// expression that is the child of an element once it is compiled. It may not
/// take every text (see [`luau`]), nor a `#!` line with nothing after it but
/// comments, one of them not closed. None of this comes about where the file does
/// not lex or parse.
#[verifier::external_body]
fn compile_recovering(source: &str, config: &Config) -> (r: Compilation)
    requires
        refused(*config, source@) is None,
    ensures
        compilations(*config)[source@].contains(r@),
{
    match luaux::compile::compile_recovering(source, &luaux::backend::Vide, config.clone()) {
        Ok(done) => Compilation::Done {
            output: done.output,
            errors: done.errors.into_iter().map(
                |e| Report { message: e.message, offset: e.offset, length: e.length, help: e.help },
            ).collect(),
            warnings: done.warnings.into_iter().map(
                |w| Report { message: w.message, offset: w.offset, length: w.length, help: w.help },
            ).collect(),
        },
        Err(e) => Compilation::Failed(
            Report { message: e.message, offset: e.offset, length: e.length, help: e.help },
        ),
    }
}

/// Compiles a document.
pub fn compile(document: &Document, project: &Project) -> (r: Compilation)
    ensures
        comes_to(project.config, document.text@, r@),
{
    compile_text(document.text.as_str(), &project.config)
}

/// Where what a report points at begins.
pub open spec fn report_start(text: Seq<char>, report: ReportView) -> int {
    line_index::floor_of(text, report.offset as int)
}

/// Where it ends. A length of zero means "point here", but a zero-width range is
/// invisible in most editors, so it widens to the character it points at — the
/// whole character.
pub open spec fn report_end(text: Seq<char>, report: ReportView) -> int {
    line_index::ceil_of(
        text,
        report_start(text, report) + if report.length == 0 {
            1
        } else {
            report.length as int
        },
    )
}

/// Everything a compile has to say, errors first, each with its severity.
pub open spec fn reports_of(compilation: CompilationView) -> Seq<(ReportView, u64)> {
    match compilation {
        CompilationView::Done { errors, warnings, .. } => errors.map_values(
            |report: ReportView| (report, 1u64),
        ) + warnings.map_values(|report: ReportView| (report, 2u64)),
        CompilationView::Failed(report) => seq![(report, 1u64)],
    }
}

/// A list of candidates, as JSON.
pub open spec fn candidates_json(names: Seq<Seq<char>>) -> JsonView {
    JsonView::Array(names.map_values(|name: Seq<char>| JsonView::Text(name)))
}

/// What a suggestion is, as JSON.
pub open spec fn fix_json(kind: Seq<char>, range: JsonView, names: Seq<Seq<char>>) -> JsonView {
    JsonView::object().with("kind"@, JsonView::Text(kind)).with("range"@, range).with(
        "candidates"@,
        candidates_json(names),
    )
}

/// The class whose member a context is writing, if it is.
pub open spec fn written_on(config: Config, context: Context) -> Option<Seq<char>> {
    match context {
        Context::AttributeName { tag, .. } => resolving::class_of(config, tag@),
        _ => None,
    }
}

/// Whether members are those that a context could be writing.
pub open spec fn members_there(config: Config, context: Context, members: Seq<NamedView>) -> bool {
    written_on(config, context) matches Some(class) ==> naming::offers(config, class, members)
}

/// Replacement candidates for the text a diagnostic underlines, in the project's
/// own spelling: the nearest class for a tag, `<` and all, or the nearest
/// members for an attribute's name.
pub open spec fn suggested(
    text: Seq<char>,
    project: Project,
    members: Seq<NamedView>,
    context: Context,
    start: int,
    end: int,
) -> Option<JsonView> {
    let written = text::cut(text, start, end);
    match pieces::stripped(written, "<"@) {
        Some(rest) => match classes::nearest_class(text::trimmed(rest, Edge::White)) {
            Some(class) => Some(
                fix_json(
                    "element"@,
                    document::range_at(text, start + 1, end),
                    seq![naming::spelling_in(project.vocabulary.listed(), class)],
                ),
            ),
            None => None,
        },
        None => match written_on(project.config, context) {
            Some(class) => {
                let near = classes::nearest_members(class, written);
                if near.len() == 0 {
                    None
                } else {
                    Some(
                        fix_json(
                            "member"@,
                            document::range_at(text, start, end),
                            near.map_values(
                                |member: Seq<char>| naming::spelling_in(members, member),
                            ),
                        ),
                    )
                }
            },
            None => None,
        },
    }
}

/// A report as an LSP diagnostic.
///
/// `help` becomes related information rather than being glued onto the message:
/// it is a separate thought, and editors render it separately. The candidates
/// travel as data, so that a code action does not have to read the message back
/// in English.
pub open spec fn diagnosed(
    document: Document,
    project: Project,
    report: ReportView,
    severity: u64,
    context: Context,
    members: Seq<NamedView>,
) -> JsonView {
    let text = document.text@;
    let start = report_start(text, report);
    let end = report_end(text, report);
    let range = document::range_at(text, start, end);
    let plain = plain_json(range, severity, report.message);
    let helped = match report.help {
        Some(help) => plain.with(
            "relatedInformation"@,
            JsonView::Array(
                seq![
                    JsonView::object().with(
                        "location"@,
                        JsonView::object().with("uri"@, JsonView::Text(document.uri@)).with(
                            "range"@,
                            range,
                        ),
                    ).with("message"@, JsonView::Text(help)),
                ],
            ),
        ),
        None => plain,
    };
    match suggested(text, project, members, context, start, end) {
        Some(fix) => helped.with("data"@, fix),
        None => helped,
    }
}

/// What every diagnostic of ours has.
pub open spec fn plain_json(range: JsonView, severity: u64, message: Seq<char>) -> JsonView {
    JsonView::object().with("range"@, range).with(
        "severity"@,
        JsonView::Number(NumberView::Unsigned(severity)),
    ).with("source"@, JsonView::Text("luaux"@)).with("message"@, JsonView::Text(message))
}

/// What is wrong with the project's settings, if anything is. A broken
/// `luaux.toml` changes what compiles, so it cannot be quietly ignored.
pub open spec fn settings_diagnosed(document: Document, project: Project) -> Seq<JsonView> {
    match project.error {
        Some(error) => seq![
            plain_json(document::range_at(document.text@, 0, 0), 1, error@),
        ],
        None => Seq::empty(),
    }
}

/// The diagnostics of a document, given what each report's place is in and what
/// could be written there.
pub open spec fn all_diagnosed(
    document: Document,
    project: Project,
    reports: Seq<(ReportView, u64)>,
    contexts: Seq<Context>,
    members: Seq<Seq<NamedView>>,
) -> Seq<JsonView> {
    settings_diagnosed(document, project) + Seq::new(
        reports.len(),
        |i: int|
            diagnosed(document, project, reports[i].0, reports[i].1, contexts[i], members[i]),
    )
}

/// A compile that succeeded, and the map from it.
#[derive(Debug)]
pub struct Compiled {
    pub output: String,
    pub map: SourceMap,
    /// Document version this came from.
    pub version: i64,
    /// Lines in the source it was built from. The map is only valid while line
    /// numbers still correspond, so a change to this count retires it outright.
    pub lines: usize,
}

#[derive(Debug)]
pub struct Analysis {
    /// Ours, always describing the document as it is right now.
    pub diagnostics: Vec<Json>,
    /// The generated `.luau`, current or stale. `None` means nothing has ever
    /// compiled, and forwarding is simply unavailable.
    pub compiled: Option<Compiled>,
    /// Whether `compiled` describes an older revision of the document.
    pub stale: bool,
}

/// Where each report of a compile points, for asking what stands there.
pub fn places(document: &Document, compilation: &Compilation) -> (r: Vec<usize>)
    ensures
        r@.len() == reports_of(compilation@).len(),
        forall|i: int|
            0 <= i < r@.len() ==> #[trigger] r@[i] == report_start(
                document.text@,
                reports_of(compilation@)[i].0,
            ),
{
    let mut out: Vec<usize> = Vec::new();
    match compilation {
        Compilation::Done { errors, warnings, .. } => {
            let mut i: usize = 0;
            while i < errors.len()
                invariant
                    i <= errors@.len(),
                    out@.len() == i,
                    forall|j: int|
                        0 <= j < i ==> #[trigger] out@[j] == report_start(
                            document.text@,
                            errors@[j]@,
                        ),
                decreases errors@.len() - i,
            {
                out.push(floor_boundary(document.text.as_str(), errors[i].offset));
                i = i + 1;
            }
            let mut i: usize = 0;
            while i < warnings.len()
                invariant
                    i <= warnings@.len(),
                    out@.len() == errors@.len() + i,
                    forall|j: int|
                        0 <= j < errors@.len() ==> #[trigger] out@[j] == report_start(
                            document.text@,
                            errors@[j]@,
                        ),
                    forall|j: int|
                        errors@.len() <= j < out@.len() ==> #[trigger] out@[j] == report_start(
                            document.text@,
                            warnings@[j - errors@.len()]@,
                        ),
                decreases warnings@.len() - i,
            {
                out.push(floor_boundary(document.text.as_str(), warnings[i].offset));
                i = i + 1;
            }
        },
        Compilation::Failed(report) => {
            out.push(floor_boundary(document.text.as_str(), report.offset));
        },
    }
    out
}

impl Analysis {
    /// Turns a compile of `document` into diagnostics and output, reusing
    /// `previous` as a fallback if there is no output. `contexts` is what stands
    /// where each report points, in the order of [`places`].
    pub fn run(
        document: &Document,
        project: &Project,
        previous: Option<Compiled>,
        compilation: Compilation,
        contexts: &Vec<Context>,
    ) -> (r: Self)
        requires
            document.wf(),
            project.wf(),
            contexts@.len() == reports_of(compilation@).len(),
        ensures
            exists|members: Seq<Seq<NamedView>>|
                #![trigger all_diagnosed(
                    *document,
                    *project,
                    reports_of(compilation@),
                    contexts@,
                    members,
                )]
                {
                    &&& members.len() == contexts@.len()
                    &&& forall|i: int|
                        0 <= i < members.len() ==> members_there(
                            project.config,
                            contexts@[i],
                            #[trigger] members[i],
                        )
                    &&& json::list_view(r.diagnostics@) == all_diagnosed(
                        *document,
                        *project,
                        reports_of(compilation@),
                        contexts@,
                        members,
                    )
                },
            match compilation@ {
                CompilationView::Done { output, .. } => {
                    &&& !r.stale
                    &&& r.compiled matches Some(compiled) && {
                        &&& compiled.output@ == output
                        &&& compiled.map.wf()
                        &&& compiled.map.verbatim(document.text@, output)
                        &&& map_builder::mapped_by(
                            document.text@,
                            output,
                            project.config,
                            compiled.map@,
                        )
                        &&& compiled.version == document.version
                        &&& compiled.lines == document.index.starts().len()
                    }
                },
                CompilationView::Failed(_) => {
                    // Keep the last good output only while line numbers can still
                    // be trusted. Once the line count moves, a stale map is not
                    // stale — it is wrong.
                    &&& r.compiled == match previous {
                        Some(compiled) if compiled.lines == document.index.starts().len() => Some(
                            compiled,
                        ),
                        _ => None,
                    }
                    &&& r.stale == (r.compiled is Some)
                },
            },
    {
        let mut diagnostics: Vec<Json> = Vec::new();
        let ghost reports = reports_of(compilation@);
        let ghost mut members: Seq<Seq<NamedView>> = Seq::empty();
        if let Some(error) = &project.error {
            let value = plain(document.range_at(0, 0), 1, error.as_str());
            proof {
                json::lemma_list_view_push(diagnostics@, value);
                assert(json::list_view(diagnostics@.push(value)) =~= settings_diagnosed(
                    *document,
                    *project,
                ));
            }
            diagnostics.push(value);
        }
        let lines: usize = document.index.line_count();
        let total: usize = contexts.len();
        let ghost so_far = |n: int, members: Seq<Seq<NamedView>>|
            all_diagnosed(*document, *project, reports.take(n), contexts@, members);
        proof {
            assert(json::list_view(diagnostics@) =~= so_far(0, members));
        }
        match compilation {
            Compilation::Done { output, errors, warnings } => {
                let mut i: usize = 0;
                while i < errors.len()
                    invariant
                        document.wf(),
                        project.wf(),
                        i <= errors@.len(),
                        contexts@.len() == reports.len(),
                        reports == report_views(errors@).map_values(
                            |report: ReportView| (report, 1u64),
                        ) + report_views(warnings@).map_values(
                            |report: ReportView| (report, 2u64),
                        ),
                        members.len() == i,
                        forall|j: int|
                            0 <= j < members.len() ==> members_there(
                                project.config,
                                contexts@[j],
                                #[trigger] members[j],
                            ),
                        json::list_view(diagnostics@) == all_diagnosed(
                            *document,
                            *project,
                            reports.take(i as int),
                            contexts@,
                            members,
                        ),
                    decreases errors@.len() - i,
                {
                    assert(reports[i as int] == (errors@[i as int]@, 1u64));
                    let (value, Ghost(list)) = diagnostic(
                        document,
                        project,
                        &errors[i],
                        1,
                        &contexts[i],
                    );
                    proof {
                        lemma_one_more(
                            *document,
                            *project,
                            reports,
                            contexts@,
                            members,
                            i as int,
                            list,
                        );
                        json::lemma_list_view_push(diagnostics@, value);
                        members = members.push(list);
                    }
                    diagnostics.push(value);
                    i = i + 1;
                }
                let mut i: usize = 0;
                while i < warnings.len()
                    invariant
                        document.wf(),
                        project.wf(),
                        i <= warnings@.len(),
                        total == contexts@.len(),
                        contexts@.len() == reports.len(),
                        reports == report_views(errors@).map_values(
                            |report: ReportView| (report, 1u64),
                        ) + report_views(warnings@).map_values(
                            |report: ReportView| (report, 2u64),
                        ),
                        members.len() == errors@.len() + i,
                        forall|j: int|
                            0 <= j < members.len() ==> members_there(
                                project.config,
                                contexts@[j],
                                #[trigger] members[j],
                            ),
                        json::list_view(diagnostics@) == all_diagnosed(
                            *document,
                            *project,
                            reports.take(errors@.len() + i),
                            contexts@,
                            members,
                        ),
                    decreases warnings@.len() - i,
                {
                    let ghost k = errors@.len() + i;
                    assert(reports[k] == (warnings@[i as int]@, 2u64));
                    assert(reports.len() == errors@.len() + warnings@.len());
                    let (value, Ghost(list)) = diagnostic(
                        document,
                        project,
                        &warnings[i],
                        2,
                        &contexts[errors.len() + i],
                    );
                    proof {
                        lemma_one_more(
                            *document,
                            *project,
                            reports,
                            contexts@,
                            members,
                            k,
                            list,
                        );
                        json::lemma_list_view_push(diagnostics@, value);
                        members = members.push(list);
                    }
                    diagnostics.push(value);
                    i = i + 1;
                }
                assert(reports.take((errors@.len() + warnings@.len()) as int) =~= reports);
                let map = build(document.text.as_str(), output.as_str(), &project.config);
                Self {
                    diagnostics,
                    compiled: Some(Compiled { output, map, version: document.version, lines }),
                    stale: false,
                }
            },
            // Only a parse error gets here, and there is genuinely no output for
            // one: the tree it would be built from does not exist.
            Compilation::Failed(report) => {
                assert(reports[0] == (report@, 1u64));
                let (value, Ghost(list)) = diagnostic(
                    document,
                    project,
                    &report,
                    1,
                    &contexts[0],
                );
                proof {
                    lemma_one_more(*document, *project, reports, contexts@, members, 0, list);
                    json::lemma_list_view_push(diagnostics@, value);
                    members = members.push(list);
                    assert(reports.take(1) =~= reports);
                }
                diagnostics.push(value);
                let compiled = match previous {
                    Some(compiled) => if compiled.lines == lines {
                        Some(compiled)
                    } else {
                        None
                    },
                    None => None,
                };
                let stale = compiled.is_some();
                Self { diagnostics, compiled, stale }
            },
        }
    }
}

/// One more report adds one more diagnostic.
proof fn lemma_one_more(
    document: Document,
    project: Project,
    reports: Seq<(ReportView, u64)>,
    contexts: Seq<Context>,
    members: Seq<Seq<NamedView>>,
    i: int,
    list: Seq<NamedView>,
)
    requires
        0 <= i < reports.len(),
        members.len() == i,
    ensures
        all_diagnosed(document, project, reports.take(i + 1), contexts, members.push(list))
            == all_diagnosed(document, project, reports.take(i), contexts, members).push(
            diagnosed(document, project, reports[i].0, reports[i].1, contexts[i], list),
        ),
{
    assert(all_diagnosed(document, project, reports.take(i + 1), contexts, members.push(list))
        =~= all_diagnosed(document, project, reports.take(i), contexts, members).push(
        diagnosed(document, project, reports[i].0, reports[i].1, contexts[i], list),
    ));
}

fn plain(range: Json, severity: u64, message: &str) -> (r: Json)
    ensures
        r@ == plain_json(range@, severity, message@),
{
    Json::object().with("range", range).with("severity", Json::number(severity)).with(
        "source",
        Json::text("luaux"),
    ).with("message", Json::text(message))
}

/// A report as an LSP diagnostic.
fn diagnostic(
    document: &Document,
    project: &Project,
    report: &Report,
    severity: u64,
    context: &Context,
) -> (r: (Json, Ghost<Seq<NamedView>>))
    requires
        document.wf(),
        project.wf(),
    ensures
        members_there(project.config, *context, r.1@),
        r.0@ == diagnosed(*document, *project, report@, severity, *context, r.1@),
{
    let text = document.text.as_str();
    let start: usize = floor_boundary(text, report.offset);
    let wide: usize = if report.length == 0 {
        1
    } else {
        report.length
    };
    // Widening by one *byte* lands inside anything non-ASCII, and `\u{a0}` is one
    // Option+Space away on every Mac keyboard.
    let end: usize = if wide <= usize::MAX - start {
        ceil_boundary(text, start + wide)
    } else {
        text::length(text)
    };
    proof {
        line_index::law_boundaries_round_outwards(document.text@, start as int);
        lemma_past_start(document.text@, start as int, start + wide);
    }
    let mut value = plain(document.range_at(start, end), severity, report.message.as_str());
    if let Some(help) = &report.help {
        let location = Json::object().with("uri", Json::text(document.uri.as_str())).with(
            "range",
            document.range_at(start, end),
        );
        let related = Json::object().with("location", location).with(
            "message",
            Json::text(help.as_str()),
        );
        value = value.with("relatedInformation", Json::only(related));
    }
    let (fix, list) = suggestion(document, project, context, start, end);
    if let Some(fix) = fix {
        value = value.with("data", fix);
    }
    (value, list)
}

/// Rounding up from past a boundary does not go back before it.
proof fn lemma_past_start(text: Seq<char>, start: int, at: int)
    requires
        0 <= start <= at,
        start <= text::bytes(text).len(),
        text::boundary(text, start),
    ensures
        start <= line_index::ceil_of(text, at) <= text::bytes(text).len(),
        text::cuttable(text, start, line_index::ceil_of(text, at)),
{
    text::lemma_boundary_ends(text);
    if at <= text::bytes(text).len() {
        line_index::law_boundaries_round_outwards(text, at);
    }
}

/// Replacement candidates for the text a diagnostic underlines.
///
/// Works from the source, not the message: what is underlined is either an
/// element name or an attribute name, and the Roblox tables answer both.
///
/// The tables answer in Roblox's spelling, and a quick fix that inserts one
/// would insert an error in a project with a casing scheme — so every candidate
/// is put back through the project's own vocabulary before it is offered.
fn suggestion(
    document: &Document,
    project: &Project,
    context: &Context,
    start: usize,
    end: usize,
) -> (r: (Option<Json>, Ghost<Seq<NamedView>>))
    requires
        document.wf(),
        project.wf(),
        text::cuttable(document.text@, start as int, end as int),
    ensures
        members_there(project.config, *context, r.1@),
        same_json(
            r.0,
            suggested(
                document.text@,
                *project,
                r.1@,
                *context,
                start as int,
                end as int,
            ),
        ),
{
    let class = match context {
        Context::AttributeName { tag, .. } => resolve_class(&project.config, tag.as_str()),
        _ => None,
    };
    let members: Vec<Named> = match &class {
        Some(class) => project.vocabulary.members(&project.config, class.as_str()),
        None => Vec::new(),
    };
    let ghost list = naming::named_views(members@);
    let written = text::slice(document.text.as_str(), start, end);
    // `<Frmae` — the underline covers the `<` as well.
    if let Some(rest) = strip_prefix(written, "<") {
        proof {
            reveal_strlit("<");
            crate::pieces::lemma_one_char(written@, "<"@, '<');
            assert(start < end) by {
                if start == end {
                    text::lemma_cut(document.text@, start as int, end as int);
                    vstd::utf8::encode_utf8_first_scalar(written@);
                }
            }
        }
        return match closest_class(trim(rest, Edge::White)) {
            Some(class) => {
                let name = project.vocabulary.element(class);
                let mut names: Vec<String> = Vec::new();
                names.push(name);
                assert(crate::api::strings(names@) =~= seq![name@]);
                (
                    Some(fix("element", document.range_at(start + 1, end), &names)),
                    Ghost(list),
                )
            },
            None => (None, Ghost(list)),
        };
    }
    // An attribute name: the enclosing tag says which class to ask.
    let class = match class {
        Some(class) => class,
        None => {
            return (None, Ghost(list));
        },
    };
    let near = closest_members(class.as_str(), written);
    if near.len() == 0 {
        assert(classes::texts(near@).len() == 0);
        return (None, Ghost(list));
    }
    let mut names: Vec<String> = Vec::new();
    let mut i: usize = 0;
    while i < near.len()
        invariant
            i <= near@.len(),
            list == naming::named_views(members@),
            crate::api::strings(names@) =~= classes::texts(near@).take(i as int).map_values(
                |member: Seq<char>| naming::spelling_in(list, member),
            ),
        decreases near@.len() - i,
    {
        let name = look_up(&members, near[i]);
        proof {
            assert(classes::texts(near@)[i as int] == near@[i as int]@);
            assert(crate::api::strings(names@.push(name)) =~= crate::api::strings(names@).push(
                name@,
            ));
        }
        names.push(name);
        i = i + 1;
    }
    assert(classes::texts(near@).take(near@.len() as int) =~= classes::texts(near@));
    (Some(fix("member", document.range_at(start, end), &names)), Ghost(list))
}

/// Whether a value that may be missing is the one promised.
pub open spec fn same_json(value: Option<Json>, promised: Option<JsonView>) -> bool {
    match (value, promised) {
        (Some(a), Some(b)) => a@ == b,
        (None, None) => true,
        _ => false,
    }
}

fn fix(kind: &str, range: Json, names: &Vec<String>) -> (r: Json)
    ensures
        r@ == fix_json(kind@, range@, crate::api::strings(names@)),
{
    let mut items: Vec<Json> = Vec::new();
    let mut i: usize = 0;
    while i < names.len()
        invariant
            i <= names@.len(),
            json::list_view(items@) =~= crate::api::strings(names@).take(i as int).map_values(
                |name: Seq<char>| JsonView::Text(name),
            ),
        decreases names@.len() - i,
    {
        let item = Json::text(names[i].as_str());
        proof {
            json::lemma_list_view_push(items@, item);
        }
        items.push(item);
        i = i + 1;
    }
    assert(crate::api::strings(names@).take(names@.len() as int) =~= crate::api::strings(names@));
    Json::object().with("kind", Json::text(kind)).with("range", range).with(
        "candidates",
        Json::Array(items),
    )
}

/// Whether a range of a text is one character of it.
pub open spec fn one_character(text: Seq<char>, start: int, end: int) -> bool {
    text::cuttable(text, start, end) && text::cut(text, start, end).len() == 1
}

/// A diagnostic underlines exactly the bytes that were reported, or the one
/// character that was pointed at, and it says what was reported and no more.
///
/// The report has to lie within the text, at boundaries that a position can say.
pub proof fn law_a_diagnostic_underlines_what_was_reported(
    document: Document,
    project: Project,
    report: ReportView,
    severity: u64,
    context: Context,
    members: Seq<NamedView>,
)
    requires
        line_index::addressable(document.text@, report.offset as int),
        line_index::addressable(document.text@, report_end(document.text@, report)),
        report.length > 0 ==> text::boundary(document.text@, report.offset + report.length),
        report.length == 0 ==> report.offset < text::bytes(document.text@).len(),
    ensures
        ({
            let text = document.text@;
            let diagnostic = diagnosed(document, project, report, severity, context, members);
            &&& match diagnostic.get("range"@) {
                Some(range) => match document::byte_range_of(text, range) {
                    Some((start, end)) => {
                        &&& start == report.offset
                        &&& report.length > 0 ==> end == report.offset + report.length
                        &&& report.length == 0 ==> one_character(text, start, end)
                    },
                    None => false,
                },
                None => false,
            }
            &&& diagnostic.get_u64("severity"@) == Some(severity)
            &&& diagnostic.get_str("source"@) == Some("luaux"@)
            &&& diagnostic.get_str("message"@) == Some(report.message)
            &&& diagnostic.get("relatedInformation"@) is Some <==> report.help is Some
        }),
{
    let text = document.text@;
    let start = report.offset as int;
    text::lemma_boundary_range(text, start);
    line_index::lemma_floor_fixed(text, start);
    let end = report_end(text, report);
    if report.length > 0 {
        text::lemma_boundary_range(text, start + report.length);
        line_index::lemma_floor_fixed(text, start + report.length);
    } else {
        lemma_next_character(text, start);
    }
    document::law_ranges_read_back(text, start, end);
    lemma_diagnostic_fields(document, project, report, severity, context, members);
}

/// From one boundary to the next is one character.
proof fn lemma_next_character(text: Seq<char>, start: int)
    requires
        text::boundary(text, start),
        0 <= start < text::bytes(text).len(),
    ensures
        start < line_index::ceil_of(text, start + 1),
        one_character(text, start, line_index::ceil_of(text, start + 1)),
{
    let end = line_index::ceil_of(text, start + 1);
    line_index::law_boundaries_round_outwards(text, start + 1);
    line_index::lemma_floor_fixed(text, start);
    lemma_past_start(text, start, start + 1);
    let part = text::cut(text, start, end);
    text::lemma_cut(text, start, end);
    if part.len() == 0 {
        assert(part =~= Seq::empty());
        text::lemma_bytes_concat(part, part);
        assert(part + part =~= part);
    } else if part.len() > 1 {
        text::lemma_prefix_boundary_at(part, 1);
        let within = text::bytes(part.take(1)).len() as int;
        text::lemma_boundary_inside(text, start, end, within);
        assert(part =~= part.take(1) + part.skip(1));
        text::lemma_bytes_concat(part.take(1), part.skip(1));
        text::lemma_bytes_push(part.take(1).drop_last(), part.take(1).last());
        assert(part.take(1).drop_last().push(part.take(1).last()) =~= part.take(1));
        text::lemma_bytes_push(part.skip(1).drop_last(), part.skip(1).last());
        assert(part.skip(1).drop_last().push(part.skip(1).last()) =~= part.skip(1));
        assert(start < start + within < end);
        assert(false);
    }
}

/// What a diagnostic holds under each key.
proof fn lemma_diagnostic_fields(
    document: Document,
    project: Project,
    report: ReportView,
    severity: u64,
    context: Context,
    members: Seq<NamedView>,
)
    ensures
        ({
            let text = document.text@;
            let start = report_start(text, report);
            let end = report_end(text, report);
            let diagnostic = diagnosed(document, project, report, severity, context, members);
            &&& diagnostic is Object
            &&& diagnostic.get("range"@) == Some(document::range_at(text, start, end))
            &&& diagnostic.get_u64("severity"@) == Some(severity)
            &&& diagnostic.get_str("source"@) == Some("luaux"@)
            &&& diagnostic.get_str("message"@) == Some(report.message)
            &&& diagnostic.get("relatedInformation"@) is Some <==> report.help is Some
            &&& diagnostic.get("data"@) == suggested(text, project, members, context, start, end)
        }),
{
    json::lemma_gets();
    reveal_strlit("range");
    reveal_strlit("severity");
    reveal_strlit("source");
    reveal_strlit("message");
    reveal_strlit("relatedInformation");
    reveal_strlit("data");
    assert("range"@.len() == 5 && "severity"@.len() == 8 && "source"@.len() == 6);
    assert("message"@.len() == 7 && "relatedInformation"@.len() == 18 && "data"@.len() == 4);
}

/// The help that comes with a report is told beside it: of the same file and the
/// same place, in its own words. Where there is none, nothing is told.
#[verifier::rlimit(40)]
pub proof fn law_help_is_told_of_the_same_place(
    document: Document,
    project: Project,
    report: ReportView,
    severity: u64,
    context: Context,
    members: Seq<NamedView>,
)
    ensures
        ({
            let diagnostic = diagnosed(document, project, report, severity, context, members);
            match (diagnostic.get_array("relatedInformation"@), report.help) {
                (Some(related), Some(help)) => {
                    &&& related.len() == 1
                    &&& related[0].get_str("message"@) == Some(help)
                    &&& match related[0].get("location"@) {
                        Some(location) => {
                            &&& location.get_str("uri"@) == Some(document.uri@)
                            &&& location.get("range"@) == diagnostic.get("range"@)
                        },
                        None => false,
                    }
                },
                (None, None) => true,
                _ => false,
            }
        }),
{
    json::lemma_gets();
    reveal_strlit("range");
    reveal_strlit("severity");
    reveal_strlit("source");
    reveal_strlit("message");
    reveal_strlit("relatedInformation");
    reveal_strlit("data");
    reveal_strlit("location");
    reveal_strlit("uri");
    assert("range"@.len() == 5 && "severity"@.len() == 8 && "source"@.len() == 6);
    assert("message"@.len() == 7 && "relatedInformation"@.len() == 18 && "data"@.len() == 4);
    assert("location"@.len() == 8 && "uri"@.len() == 3);
}

/// Whether a diagnostic says what a report does, as gravely as it should.
pub open spec fn tells(diagnostic: JsonView, message: Seq<char>, severity: u64) -> bool {
    &&& diagnostic.get_str("message"@) == Some(message)
    &&& diagnostic.get_u64("severity"@) == Some(severity)
    &&& diagnostic.get_str("source"@) == Some("luaux"@)
}

/// Everything that a compile has to say is told, once each and in order: what is
/// wrong with the settings, at the very start of the file; then the errors; then
/// the warnings, as such. A failure is an error.
#[verifier::rlimit(40)]
pub proof fn law_everything_reported_is_told_once(
    document: Document,
    project: Project,
    compilation: CompilationView,
    contexts: Seq<Context>,
    members: Seq<Seq<NamedView>>,
)
    ensures
        ({
            let all = all_diagnosed(document, project, reports_of(compilation), contexts, members);
            let first = if project.error is Some {
                1int
            } else {
                0int
            };
            &&& project.error matches Some(error) ==> {
                &&& tells(all[0], error@, 1)
                &&& all[0].get("range"@) is Some
                &&& document::byte_range_of(document.text@, all[0].get("range"@)->Some_0) == Some(
                    (0int, 0int),
                )
            }
            &&& match compilation {
                CompilationView::Done { errors, warnings, .. } => {
                    &&& all.len() == first + errors.len() + warnings.len()
                    &&& forall|i: int|
                        #![trigger errors[i]]
                        0 <= i < errors.len() ==> tells(all[first + i], errors[i].message, 1)
                    &&& forall|i: int|
                        #![trigger warnings[i]]
                        0 <= i < warnings.len() ==> tells(
                            all[first + errors.len() + i],
                            warnings[i].message,
                            2,
                        )
                },
                CompilationView::Failed(report) => all.len() == first + 1 && tells(
                    all[first],
                    report.message,
                    1,
                ),
            }
        }),
{
    let reports = reports_of(compilation);
    let all = all_diagnosed(document, project, reports, contexts, members);
    let first = if project.error is Some {
        1int
    } else {
        0int
    };
    if let Some(error) = project.error {
        let text = document.text@;
        line_index::lemma_nothing(text);
        document::law_ranges_read_back(text, 0, 0);
        lemma_plain();
        assert(all[0] == settings_diagnosed(document, project)[0]);
    }
    assert forall|i: int| #![trigger reports[i]] 0 <= i < reports.len() implies tells(
        all[first + i],
        reports[i].0.message,
        reports[i].1,
    ) by {
        lemma_diagnostic_fields(
            document,
            project,
            reports[i].0,
            reports[i].1,
            contexts[i],
            members[i],
        );
        assert(all[first + i] == diagnosed(
            document,
            project,
            reports[i].0,
            reports[i].1,
            contexts[i],
            members[i],
        ));
    }
    match compilation {
        CompilationView::Done { errors, warnings, .. } => {
            assert forall|i: int| #![trigger errors[i]] 0 <= i < errors.len() implies tells(
                all[first + i],
                errors[i].message,
                1,
            ) by {
                assert(reports[i] == (errors[i], 1u64));
            }
            assert forall|i: int| #![trigger warnings[i]] 0 <= i < warnings.len() implies tells(
                all[first + errors.len() + i],
                warnings[i].message,
                2,
            ) by {
                assert(reports[errors.len() + i] == (warnings[i], 2u64));
            }
        },
        CompilationView::Failed(report) => {
            assert(reports[0] == (report, 1u64));
        },
    }
}

/// What a plain diagnostic holds under each key.
proof fn lemma_plain()
    ensures
        forall|range: JsonView, severity: u64, message: Seq<char>|
            tells(#[trigger] plain_json(range, severity, message), message, severity)
                && plain_json(range, severity, message).get("range"@) == Some(range),
{
    json::lemma_gets();
    reveal_strlit("range");
    reveal_strlit("severity");
    reveal_strlit("source");
    reveal_strlit("message");
    assert("range"@.len() == 5 && "severity"@.len() == 8 && "source"@.len() == 6);
    assert("message"@.len() == 7);
}

/// Whether a text begins with the `<` of a tag.
pub open spec fn opens_a_tag(underlined: Seq<char>) -> bool {
    underlined.len() > 0 && underlined[0] == '<'
}

/// What a suggestion about some underlined text would replace: all of it, or,
/// where it is a tag, the name past its `<`.
pub open spec fn misspelt(underlined: Seq<char>) -> Seq<char> {
    if opens_a_tag(underlined) {
        underlined.skip(1)
    } else {
        underlined
    }
}

/// Whether what a diagnostic carries, if it carries anything, is about the
/// misspelt name: its range holds exactly that, it is of an element where the
/// `<` of a tag is underlined and of a member where it is not, and there is at
/// least one candidate to put in its place.
pub open spec fn narrows(text: Seq<char>, diagnostic: JsonView) -> bool {
    match (diagnostic.get("range"@), diagnostic.get("data"@)) {
        (Some(range), Some(data)) => match (
            document::byte_range_of(text, range),
            data.get("range"@),
            data.get_array("candidates"@),
        ) {
            (Some((start, end)), Some(narrow), Some(candidates)) => {
                let underlined = text::cut(text, start, end);
                &&& 0 <= start
                &&& document::reads(text, narrow, misspelt(underlined))
                &&& document::byte_range_of(text, narrow) == Some(
                    (
                        if opens_a_tag(underlined) {
                            start + 1
                        } else {
                            start
                        },
                        end,
                    ),
                )
                &&& data.get_str("kind"@) == Some(
                    if opens_a_tag(underlined) {
                        "element"@
                    } else {
                        "member"@
                    },
                )
                &&& candidates.len() > 0
                &&& forall|k: int| 0 <= k < candidates.len() ==> #[trigger] candidates[k] is Text
            },
            _ => false,
        },
        (Some(_), None) => true,
        (None, _) => false,
    }
}

/// The range in a diagnostic's data holds exactly the misspelt name: what is
/// underlined, less the `<` of a tag.
#[verifier::rlimit(40)]
pub proof fn law_a_suggestion_is_about_the_misspelt_name(
    document: Document,
    project: Project,
    report: ReportView,
    severity: u64,
    context: Context,
    members: Seq<NamedView>,
)
    requires
        text::bytes(document.text@).len() <= u32::MAX,
        line_index::addressable(document.text@, report_start(document.text@, report)),
        line_index::addressable(document.text@, report_end(document.text@, report)),
    ensures
        narrows(
            document.text@,
            diagnosed(document, project, report, severity, context, members),
        ),
{
    let text = document.text@;
    let start = report_start(text, report);
    let end = report_end(text, report);
    lemma_diagnostic_fields(document, project, report, severity, context, members);
    text::lemma_boundary_range(text, start);
    text::lemma_boundary_range(text, end);
    lemma_past_start(
        text,
        start,
        start + if report.length == 0 {
            1
        } else {
            report.length as int
        },
    );
    document::law_ranges_read_back(text, start, end);
    text::lemma_cut(text, start, end);
    let underlined = text::cut(text, start, end);
    reveal_strlit("<");
    pieces::lemma_one_char(underlined, "<"@, '<');
    if let Some(fix) = suggested(text, project, members, context, start, end) {
        json::lemma_gets();
        reveal_strlit("kind");
        reveal_strlit("range");
        reveal_strlit("candidates");
        assert("kind"@.len() == 4 && "range"@.len() == 5 && "candidates"@.len() == 10);
        if opens_a_tag(underlined) {
            lemma_past_angle(text, start, end);
            document::law_ranges_read_back(text, start + 1, end);
        }
    }
}

/// A diagnostic carries a suggestion wherever the tables know a name near the
/// misspelt one, and as many candidates as they know: one class for a tag, and
/// for an attribute the members of the class that it is written on.
#[verifier::rlimit(40)]
pub proof fn law_near_names_are_suggested(
    document: Document,
    project: Project,
    report: ReportView,
    severity: u64,
    context: Context,
    members: Seq<NamedView>,
)
    ensures
        ({
            let text = document.text@;
            let underlined = text::cut(
                text,
                report_start(text, report),
                report_end(text, report),
            );
            let data = diagnosed(document, project, report, severity, context, members).get(
                "data"@,
            );
            let near = if opens_a_tag(underlined) {
                match classes::nearest_class(text::trimmed(misspelt(underlined), Edge::White)) {
                    Some(class) => seq![class],
                    None => Seq::empty(),
                }
            } else {
                match written_on(project.config, context) {
                    Some(class) => classes::nearest_members(class, underlined),
                    None => Seq::empty(),
                }
            };
            let vocabulary = if opens_a_tag(underlined) {
                project.vocabulary.listed()
            } else {
                members
            };
            match data {
                Some(data) => match data.get_array("candidates"@) {
                    Some(candidates) => {
                        &&& near.len() > 0
                        &&& candidates.len() == near.len()
                        &&& forall|k: int|
                            0 <= k < near.len() ==> #[trigger] candidates[k] == JsonView::Text(
                                naming::spelling_in(vocabulary, near[k]),
                            )
                    },
                    None => false,
                },
                None => near.len() == 0,
            }
        }),
{
    let text = document.text@;
    let underlined = text::cut(text, report_start(text, report), report_end(text, report));
    lemma_diagnostic_fields(document, project, report, severity, context, members);
    json::lemma_gets();
    reveal_strlit("kind");
    reveal_strlit("range");
    reveal_strlit("candidates");
    assert("kind"@.len() == 4 && "range"@.len() == 5 && "candidates"@.len() == 10);
    reveal_strlit("<");
    pieces::lemma_one_char(underlined, "<"@, '<');
}

/// Past the `<` of a tag is its name, and a position can say where that begins.
proof fn lemma_past_angle(text: Seq<char>, start: int, end: int)
    requires
        text::bytes(text).len() <= u32::MAX,
        text::cuttable(text, start, end),
        opens_a_tag(text::cut(text, start, end)),
    ensures
        line_index::addressable(text, start + 1),
        start + 1 <= end,
        text::cut(text, start + 1, end) == text::cut(text, start, end).skip(1),
        text::bytes(text::cut(text, start, end).skip(1)).len() == end - start - 1,
{
    let underlined = text::cut(text, start, end);
    let rest = underlined.skip(1);
    text::lemma_cut(text, start, end);
    reveal_strlit("<");
    vstd::utf8::is_ascii_chars_encode_utf8("<"@);
    assert(underlined =~= "<"@ + rest);
    text::lemma_bytes_concat("<"@, rest);
    assert(text::bytes(underlined)[0] == 60);
    assert(text::bytes(text)[start] == 60);
    text::lemma_ascii_boundaries(text, start);
    line_index::lemma_addressable(text, start + 1);
    text::lemma_cut(text, start + 1, end);
    let b = text::bytes(underlined);
    assert(b.subrange(1, b.len() as int) =~= text::bytes(rest));
    assert(b.subrange(1, b.len() as int) =~= text::bytes(text).subrange(start + 1, end));
    text::lemma_bytes_injective(text::cut(text, start + 1, end), rest);
}

} // verus!
