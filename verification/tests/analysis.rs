use luaux::config::Config;
use luaux_lsp::analysis::{compile, places, Analysis, Compilation, Compiled, Report};
use luaux_lsp::document::Document;
use luaux_lsp::json::Json;
use luaux_lsp::project::Project;
use luaux_lsp::resolving::names_in;
use luaux_lsp::scan::Context;

fn document(version: i64, text: &str) -> Document {
    Document::new("file:///a.luaux".into(), version, text.into())
}

fn plain() -> Project {
    Project::new(Config::default(), None)
}

/// Analyses a document whose reports stand where `context` says.
fn analyse_with(
    document: &Document,
    project: &Project,
    previous: Option<Compiled>,
    context: &dyn Fn(usize) -> Context,
) -> Analysis {
    let compilation = compile(document, project);
    let contexts = places(document, &compilation).into_iter().map(context).collect();
    Analysis::run(document, project, previous, compilation, &contexts)
}

fn analyse(text: &str) -> Analysis {
    analyse_with(&document(1, text), &plain(), None, &|_| Context::Text)
}

/// What is there to fix in a file with an attribute of `tag` misspelt.
fn analyse_attribute(text: &str, tag: &str) -> Analysis {
    analyse_with(&document(1, text), &plain(), None, &|start| Context::AttributeName {
        tag: tag.to_string(),
        start,
        prefix: String::new(),
    })
}

fn messages(analysis: &Analysis) -> Vec<String> {
    analysis
        .diagnostics
        .iter()
        .map(|d| d.get_str("message").unwrap_or_default().to_string())
        .collect()
}

fn at<'a>(value: &'a Json, path: &[&str]) -> &'a Json {
    path.iter().fold(value, |value, key| match value {
        Json::Array(items) => &items[key.parse::<usize>().expect("an index")],
        _ => value.get(key).unwrap_or_else(|| panic!("{key} in {value:?}")),
    })
}

#[test]
fn a_clean_file_compiles_and_says_nothing() {
    let analysis = analyse("local create = f()\nlocal e = <Frame/>\n");
    assert!(analysis.diagnostics.is_empty(), "{:?}", messages(&analysis));
    assert!(analysis.compiled.is_some());
    assert!(!analysis.stale);
}

#[test]
fn a_compile_error_becomes_a_diagnostic_at_its_offset() {
    let analysis = analyse("local create = f()\nlocal e = <Frmae/>\n");
    let diagnostic = analysis.diagnostics.first().expect("a diagnostic");

    assert_eq!(diagnostic.get_u64("severity"), Some(1));
    assert_eq!(diagnostic.get_str("source"), Some("luaux"));
    assert_eq!(at(diagnostic, &["range", "start", "line"]), &Json::number(1));
    assert_eq!(at(diagnostic, &["range", "start", "character"]), &Json::number(10));
}

#[test]
fn help_travels_as_related_information() {
    let analysis = analyse("local create = f()\nlocal e = <Frmae/>\n");
    let related = at(&analysis.diagnostics[0], &["relatedInformation", "0", "message"]);
    assert!(
        related.as_str().is_some_and(|text| text.contains("did you mean <Frame>")),
        "{related:?}"
    );
}

#[test]
fn a_misspelt_element_carries_its_candidates() {
    let analysis = analyse("local create = f()\nlocal e = <Frmae/>\n");
    let data = at(&analysis.diagnostics[0], &["data"]);
    assert_eq!(data.get_str("kind"), Some("element"));
    assert_eq!(at(data, &["candidates"]), &Json::Array(vec![Json::text("Frame")]));
}

/// A quick fix inserts its candidate verbatim, so a candidate in Roblox's
/// spelling would insert an error into a project with a scheme.
#[test]
fn a_did_you_mean_is_offered_in_the_projects_own_spelling() {
    let document = document(1, "local create = f()\nlocal e = <textLabl/>\n");
    let project =
        Project::new(Config::parse("[elements]\nall = \"camelCase\"\n").expect("config"), None);

    let analysis = analyse_with(&document, &project, None, &|_| Context::Text);
    let data = at(&analysis.diagnostics[0], &["data"]);

    assert_eq!(data.get_str("kind"), Some("element"));
    assert_eq!(
        at(data, &["candidates"]),
        &Json::Array(vec![Json::text("textLabel")]),
        "{data:?}"
    );
}

#[test]
fn a_misspelt_attribute_carries_its_candidates() {
    let analysis =
        analyse_attribute("local create = f()\nlocal e = <Frame Color3={c}/>\n", "Frame");
    let data = at(&analysis.diagnostics[0], &["data"]);
    assert_eq!(data.get_str("kind"), Some("member"));

    let candidates = at(data, &["candidates"]).as_array().expect("candidates");
    assert!(candidates.contains(&Json::text("BackgroundColor3")), "{candidates:?}");
}

/// Option+Space on a Mac types `\u{a0}`, which the LuauX parser does not
/// count as whitespace — so it fails at that byte with a zero-length error,
/// and widening that by one byte used to land mid-character and panic.
#[test]
fn a_non_breaking_space_does_not_bring_the_server_down() {
    let analysis = analyse("local create = f()\nlocal e = <TextButton\u{a0}Text='x'/>\n");
    assert!(!analysis.diagnostics.is_empty());

    // The range covers the whole character, and is expressible in UTF-16.
    let range = at(&analysis.diagnostics[0], &["range"]);
    assert_eq!(at(range, &["start", "line"]), &Json::number(1));
    assert!(
        at(range, &["end", "character"]).as_u64() > at(range, &["start", "character"]).as_u64()
    );
}

#[test]
fn every_byte_of_a_multi_byte_file_is_a_safe_diagnostic_offset() {
    // The compiler reports offsets in bytes and this has to survive all of
    // them, not just the ones a fixture happens to produce.
    let text = "local e = <Frame Name='ü\u{a0}😀'/>\n";
    let document = document(1, text);
    let project = plain();

    for offset in 0..=text.len() + 4 {
        for length in [0, 3] {
            let report =
                Report { message: "synthetic".to_string(), offset, length, help: None };
            let analysis = Analysis::run(
                &document,
                &project,
                None,
                Compilation::Failed(report),
                &vec![Context::Text],
            );
            assert_eq!(messages(&analysis), ["synthetic"]);
        }
    }
}

#[test]
fn a_warning_is_a_warning() {
    let analysis = analyse(
        "local create = f()\nlocal e = <Frame>{cond() and <TextLabel/> or nil}</Frame>\n",
    );
    assert_eq!(analysis.diagnostics.len(), 1, "{:?}", messages(&analysis));
    assert_eq!(analysis.diagnostics[0].get_u64("severity"), Some(2));
}

/// A resolution error no longer costs the file: the compiler recovers, so
/// there is fresh output and the diagnostic sits beside it. Only a *parse*
/// error leaves nothing to map, and that is what the stale fallback is for.
#[test]
fn an_unknown_element_still_compiles_and_still_reports() {
    let analysis = analyse("local create = f()\nlocal e = <Frmae/>\n");

    assert_eq!(analysis.diagnostics.len(), 1, "{:?}", messages(&analysis));
    assert_eq!(analysis.diagnostics[0].get_u64("severity"), Some(1));
    // Fresh, not the previous compile: there was no previous compile.
    assert!(analysis.compiled.is_some());
    assert!(!analysis.stale);
}

#[test]
fn every_unknown_element_is_reported_not_just_the_first() {
    let analysis = analyse("local create = f()\nlocal e = <Frmae><Recieve/><Buton/></Frmae>\n");

    let messages = messages(&analysis);
    assert_eq!(messages.len(), 3, "{messages:?}");
    assert!(messages[0].contains("Frmae"), "{messages:?}");
    assert!(messages[2].contains("Buton"), "{messages:?}");
}

#[test]
fn a_broken_file_keeps_the_last_good_compile_and_marks_it_stale() {
    let good = analyse("local create = f()\nlocal e = <Frame/>\n");
    let previous = good.compiled.expect("compiled");

    // A *parse* error, which is the kind that still leaves nothing to map.
    // Same line count, so the map's line correspondence still holds.
    let document = document(2, "local create = f()\nlocal e = <Frame\n");
    let analysis = analyse_with(&document, &plain(), Some(previous), &|_| Context::Text);

    assert!(analysis.stale);
    assert!(analysis.compiled.is_some());
    assert_eq!(analysis.diagnostics.len(), 1);
}

#[test]
fn the_fallback_is_dropped_once_lines_move() {
    let good = analyse("local create = f()\nlocal e = <Frame/>\n");
    let previous = good.compiled.expect("compiled");

    // A new line makes every line number in the old map a lie.
    let document = document(2, "local create = f()\n\nlocal e = <Frame\n");
    let analysis = analyse_with(&document, &plain(), Some(previous), &|_| Context::Text);

    assert!(!analysis.stale);
    assert!(analysis.compiled.is_none());
}

#[test]
fn a_comment_that_closes_inside_its_opening_is_reported() {
    let source = "local create = f()\nlocal e = <Frame><!--></Frame>\n";
    let at = source.find("<!-->").expect("a comment");
    match compile(&document(1, source), &plain()) {
        Compilation::Failed(report) => {
            assert_eq!(report.message, "unterminated `<!--` comment");
            assert_eq!((report.offset, report.help), (at, None));
        }
        other => panic!("{other:?}"),
    }
    let analysis = analyse(source);
    assert_eq!(messages(&analysis), ["unterminated `<!--` comment"]);

    let source = "local create = f()\nlocal s = \"<!-->\"\nlocal e = <Frame/> -- <!--->\n";
    assert!(analyse(source).diagnostics.is_empty());
}

/// What a file is turned down with, if it is.
fn failure(source: &str) -> Option<(String, usize)> {
    match compile(&document(1, source), &plain()) {
        Compilation::Failed(report) => Some((report.message, report.offset)),
        Compilation::Done { .. } => None,
    }
}

#[test]
fn a_shebang_line_that_hides_an_open_comment_is_reported() {
    assert_eq!(failure("#!--[[\n--[=[ ]]"), Some(("unterminated comment".into(), 0)));
    // Only where there is nothing else.
    assert_eq!(failure("#!/usr/bin/env 'luau' [x]\nlocal create = f()\nlocal e = <Frame/>"), None);
    assert_eq!(failure("#!--[[\nlocal y ]]\nlocal x = 1"), None);
}

#[test]
fn a_character_that_no_type_can_hold_is_reported() {
    for (types, character) in [
        ("local x: { a: $ }", "$"),
        ("type T = { [$]: number }", "$"),
        ("local x: a.$", "$"),
        ("local x: number é", "é"),
        ("local x: { [\"a\"]: (b) -> \\ }", "\\"),
        ("local x: typeof(1 + ~", "~"),
        ("type T<A... = (), B... !> = x", "!"),
        ("@$ function f() end", "$"),
    ] {
        let source = format!("local create = f()\n{types}\nlocal e = <Frame/>");
        let at = source.find(character).expect("a character");
        assert_eq!(failure(&source), Some(("unexpected character".into(), at)), "{types}");
    }
    for other in ["local x = $", "f($)", "$", "local s: string = \"$\" -- $", "--[[ é ]] local é"] {
        let source = format!("{other}\nlocal create = f()\nlocal e = <Frame/>");
        let found = failure(&source);
        assert_eq!(found.is_some(), other.ends_with("local é"), "{other}: {found:?}");
    }
}

#[test]
fn a_character_inside_the_markup_is_found_as_deep_as_it_stands() {
    let source = |child: &str| format!("local create = f()\nlocal e = <Frame>{child}</Frame>");
    for (child, character) in [
        ("{x :: { a: $ }}", "$"),
        ("{f(<Row A={y $}/>)}", "$"),
        // A comment at the end of an expression would hide what opens the next.
        ("{<TextLabel>{x :: number -- c\n}lit{[[\n$ ]]}</TextLabel>}", "--"),
    ] {
        let source = source(child);
        let at = source.find(character).expect("a character");
        assert_eq!(failure(&source), Some(("unexpected character".into(), at)), "{child}");
    }
    for child in [
        "{\"é!\"}",
        "{items:map(function(x: Item) return <TextLabel>Größe!</TextLabel> end)}",
        "{<TextLabel Text='a' Name={x -- c\n}/>}",
        "{x -- why!\n}",
        "<TextLabel Text={x -- why!\n}/>",
    ] {
        assert_eq!(failure(&source(child)), None, "{child}");
    }
    let nested = source("{<Frame><!-->\n</Frame>}");
    let at = nested.find("<!-->").expect("a comment");
    assert_eq!(failure(&nested), Some(("unterminated `<!--` comment".into(), at)));
}

#[test]
fn a_factory_that_is_not_luau_is_reported() {
    let project = Project::new(Config::with_create("$"), None);
    match compile(&document(1, "local e = 1"), &project) {
        Compilation::Failed(report) => assert!(report.message.contains("[factory] create")),
        other => panic!("{other:?}"),
    }
}

#[test]
fn names_are_found_around_what_no_type_can_hold() {
    let names = |source: &str| {
        let mut names = names_in(source, &Config::default());
        names.sort();
        names
    };
    assert_eq!(names("local x: { a: $ }\nlocal Row = 1"), ["Row", "x"]);
    assert_eq!(names("type T = { [$]: number }\nlocal Row = 1"), ["Row"]);
    assert_eq!(names("local x: a.$\nlocal Row = 1"), ["Row", "x"]);
    assert_eq!(names("local x: number $\nlocal Row = 1"), ["Row", "x"]);
}

#[test]
fn the_names_below_a_shebang_line_are_found() {
    let names = |source: &str| {
        let mut names = names_in(source, &Config::default());
        names.sort();
        names
    };
    assert_eq!(names("#!/usr/bin/env luau\nlocal Row = 1"), ["Row"]);
    assert!(names("#!\n--[[").is_empty());
    assert!(names("#!").is_empty());
}
