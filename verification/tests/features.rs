use luaux::config::Config;
use luaux_lsp::analysis::{compile, places, Analysis};
use luaux_lsp::code_actions::actions;
use luaux_lsp::completion::{complete, Completion};
use luaux_lsp::document::{Document, Documents};
use luaux_lsp::hover::{hover, Answer};
use luaux_lsp::json::Json;
use luaux_lsp::project::Project;
use luaux_lsp::rename::{rename, Answer as Renamed};
use luaux_lsp::scan::{Context, Scan};
use luaux_lsp::semantic_tokens::tokens;
use luaux_lsp::symbols::symbols;

const SOURCE: &str = "local create = f()\nlocal e = <Frame Size={size}/>\n";

const URI: &str = "file:///a.luaux";

fn open(text: &str) -> Document {
    Document::new(URI.into(), 1, text.into())
}

fn project() -> Project {
    Project::new(Config::default(), None)
}

fn diagnostics(document: &Document) -> Vec<Json> {
    let project = project();
    let compilation = compile(document, &project);
    let contexts = places(document, &compilation).iter().map(|_| Context::Text).collect();
    Analysis::run(document, &project, None, compilation, &contexts).diagnostics
}

fn at<'a>(value: &'a Json, path: &[&str]) -> &'a Json {
    path.iter().fold(value, |value, key| match value {
        Json::Array(items) => &items[key.parse::<usize>().expect("an index")],
        _ => value.get(key).unwrap_or_else(|| panic!("{key} in {value:?}")),
    })
}

/// The offset of a position.
fn offset(document: &Document, line: u64, character: u64) -> usize {
    let position = Json::object()
        .with("line", Json::number(line))
        .with("character", Json::number(character));
    document.byte_offset(&position).expect("a position")
}

fn labels(document: &Document, context: Context) -> Vec<String> {
    let scan = Scan { context, open: Vec::new() };
    match complete(document, &project(), &scan, None, false) {
        Completion::Ours(list) => list
            .get_array("items")
            .expect("items")
            .iter()
            .filter_map(|item| item.get_str("label"))
            .map(str::to_string)
            .collect(),
        other => panic!("{other:?}"),
    }
}

#[test]
fn a_compile_error_is_published_as_a_diagnostic() {
    let diagnostics = diagnostics(&open("local create = f()\nlocal e = <Frmae/>\n"));
    assert_eq!(diagnostics.len(), 1, "{diagnostics:#?}");
    assert_eq!(diagnostics[0].get_str("source"), Some("luaux"));
    assert_eq!(at(&diagnostics[0], &["range", "start", "line"]), &Json::number(1));

    let related = at(&diagnostics[0], &["relatedInformation", "0", "message"])
        .as_str()
        .unwrap_or_default();
    assert!(related.contains("did you mean <Frame>"), "{related}");
}

#[test]
fn a_clean_file_publishes_nothing() {
    assert!(diagnostics(&open(SOURCE)).is_empty());
}

#[test]
fn editing_a_file_republishes() {
    let mut documents = Documents::new();
    documents.open(URI.into(), 1, SOURCE.into());
    assert!(diagnostics(documents.get(URI).expect("open")).is_empty());

    // Break it.
    let broken = Json::object()
        .with("text", Json::text("local create = f()\nlocal e = <Frmae Size={size}/>\n"));
    assert!(documents.change(URI, 2, &[broken]));
    assert_eq!(diagnostics(documents.get(URI).expect("open")).len(), 1);

    // Fix it.
    let fixed = Json::object().with("text", Json::text(SOURCE));
    assert!(documents.change(URI, 3, &[fixed]));
    assert!(diagnostics(documents.get(URI).expect("open")).is_empty());
}

#[test]
fn completion_offers_classes_on_a_half_typed_tag() {
    let document = open("local create = f()\nlocal e = <Fra\n");
    let start = offset(&document, 1, 14) - "Fra".len();
    let labels =
        labels(&document, Context::TagName { start, prefix: "Fra".into(), closing: false });

    assert!(labels.contains(&"Frame".to_string()), "{labels:?}");
    // The file does not compile, and that is the normal state of one being
    // typed.
    assert!(!diagnostics(&document).is_empty());
}

#[test]
fn completion_offers_a_classes_own_members() {
    let document = open("local create = f()\nlocal e = <TextLabel Te\n");
    let start = offset(&document, 1, 23) - "Te".len();
    let labels = labels(
        &document,
        Context::AttributeName { tag: "TextLabel".into(), start, prefix: "Te".into() },
    );

    assert!(labels.contains(&"Text".to_string()), "{labels:?}");
    assert!(labels.contains(&"BackgroundColor3".to_string()), "{labels:?}");
}

#[test]
fn hover_on_a_tag_says_what_it_resolved_to() {
    let document = open("local create = f()\nlocal Row = f()\nlocal e = <Row/>\n");
    let cursor = offset(&document, 2, 12);
    let scan = Scan {
        context: Context::TagName { start: cursor - 1, prefix: "R".into(), closing: false },
        open: Vec::new(),
    };

    let text = match hover(&document, &project(), &scan, None, cursor) {
        Answer::Both { ours, .. } => at(&ours, &["contents", "value"]).as_str().map(str::to_string),
        other => panic!("{other:?}"),
    };
    let text = text.expect("hover text");
    assert!(text.contains("Component"), "{text}");
}

#[test]
fn document_symbols_are_the_element_tree() {
    let symbols = symbols(&open("local create = f()\nlocal e = <Frame><TextLabel/></Frame>\n"));

    assert_eq!(at(&symbols, &["0", "name"]), &Json::text("Frame"));
    assert_eq!(at(&symbols, &["0", "children", "0", "name"]), &Json::text("TextLabel"));
}

#[test]
fn a_quick_fix_is_offered_for_a_misspelt_element() {
    let document = open("local create = f()\nlocal e = <Frmae/>\n");
    let actions = actions(URI, &diagnostics(&document));

    assert_eq!(at(&actions, &["0", "title"]), &Json::text("Change element to Frame"));
    assert_eq!(
        at(&actions, &["0", "edit", "changes", URI, "0", "newText"]),
        &Json::text("Frame")
    );
}

#[test]
fn renaming_a_tag_renames_both_halves() {
    let document = open("local create = f()\nlocal e = <Frame></Frame>\n");
    let cursor = offset(&document, 1, 12);
    let scan = Scan {
        context: Context::TagName { start: cursor - 1, prefix: "F".into(), closing: false },
        open: Vec::new(),
    };

    let edit = match rename(&document, &scan, cursor, "Panel") {
        Renamed::Ours(edit) => edit,
        other => panic!("{other:?}"),
    };
    let edits = at(&edit, &["changes", URI]).as_array().expect("edits");
    assert_eq!(edits.len(), 2);
    assert!(edits.iter().all(|edit| edit.get_str("newText") == Some("Panel")));
}

#[test]
fn semantic_tokens_distinguish_a_component_from_a_class() {
    let document =
        open("local create = f()\nlocal Row = f()\nlocal e = <Frame><Row/></Frame>\n");
    let tokens = tokens(&document, &project());

    let data: Vec<u64> =
        at(&tokens, &["data"]).as_array().expect("data").iter().filter_map(Json::as_u64).collect();
    // Three names, five numbers each: Frame, Row, Frame.
    assert_eq!(data.len(), 15, "{data:?}");
    // Token type: class, function, class.
    assert_eq!([data[3], data[8], data[13]], [0, 1, 0]);
}

/// Option+Space types `\u{a0}`, which the LuauX parser does not count as
/// whitespace — so it fails at that byte with a zero-length error. Widening that
/// by one *byte* lands inside the character.
#[test]
fn a_non_breaking_space_does_not_kill_the_server() {
    let document = open("local create = f()\nlocal e = <TextButton\u{a0}Text='x'/>\n");
    assert!(!diagnostics(&document).is_empty());

    let start = offset(&document, 1, 21) - "TextButton".len();
    let labels =
        labels(&document, Context::TagName { start, prefix: "TextButton".into(), closing: false });
    assert!(!labels.is_empty(), "nothing is offered");

    assert!(matches!(symbols(&document), Json::Array(_)));
}

#[test]
fn multi_byte_text_survives_every_feature() {
    let document =
        open("local create = f()\nlocal e = <TextLabel>héllo — 😀 {n}</TextLabel>\n");
    let _ = diagnostics(&document);

    // Positions in and around the astral character, in every feature that takes
    // one.
    for character in 20..40 {
        let cursor = offset(&document, 1, character);
        let scan = Scan { context: Context::Text, open: Vec::new() };
        let _ = hover(&document, &project(), &scan, None, cursor);
        let _ = complete(&document, &project(), &scan, None, true);
        let _ = rename(&document, &scan, cursor, "Panel");
    }

    let symbols = symbols(&document);
    assert_eq!(at(&symbols, &["0", "name"]), &Json::text("TextLabel"), "{symbols:?}");
}
