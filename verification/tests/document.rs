use luaux_lsp::document::{Document, Documents};
use luaux_lsp::json::Json;

fn document(text: &str) -> Document {
    Document::new("file:///a.luaux".into(), 1, text.into())
}

fn position(line: u64, character: u64) -> Json {
    Json::object().with("line", Json::number(line)).with("character", Json::number(character))
}

fn range(start: (u64, u64), end: (u64, u64)) -> Json {
    Json::object()
        .with("start", position(start.0, start.1))
        .with("end", position(end.0, end.1))
}

fn change(range: Json, text: &str) -> Json {
    Json::object().with("range", range).with("text", Json::text(text))
}

#[test]
fn a_full_change_replaces_everything() {
    let mut document = document("old");
    assert!(document.apply(&Json::object().with("text", Json::text("new"))));
    assert_eq!(document.text, "new");
}

#[test]
fn an_incremental_change_splices() {
    let mut document = document("local e = <Fra/>\n");
    assert!(document.apply(&change(range((0, 14), (0, 14)), "me")));
    assert_eq!(document.text, "local e = <Frame/>\n");
}

#[test]
fn the_line_index_keeps_up_with_edits() {
    let mut document = document("a\n");
    document.apply(&change(range((1, 0), (1, 0)), "b\nc\n"));

    assert_eq!(document.text, "a\nb\nc\n");
    assert_eq!(document.byte_offset(&position(2, 0)), Some(4));
}

#[test]
fn a_change_spanning_lines_applies() {
    let mut document = document("one\ntwo\nthree\n");
    assert!(document.apply(&change(range((0, 1), (2, 2)), "X")));
    assert_eq!(document.text, "oXree\n");
}

#[test]
fn an_unresolvable_range_is_refused_rather_than_guessed() {
    let mut document = document("a\n");
    // Line 99 does not exist; applying this anywhere would desynchronise us
    // from the editor for every position after it.
    assert!(!document.apply(&change(range((99, 0), (99, 0)), "x")));
    assert_eq!(document.text, "a\n");
}

#[test]
fn an_inverted_range_is_refused() {
    let document = document("abc\n");
    assert_eq!(document.byte_range(&range((0, 3), (0, 1))), None);
}

#[test]
fn a_change_without_a_text_is_refused() {
    let mut document = document("abc\n");
    assert!(!document.apply(&Json::object().with("range", range((0, 0), (0, 1)))));
    assert_eq!(document.text, "abc\n");
}

#[test]
fn a_range_reads_back_as_itself() {
    let document = document("a\u{a0}😀\nb\n");
    for (start, end) in [(0, 1), (1, 3), (3, 7), (0, 9)] {
        assert_eq!(document.byte_range(&document.range_at(start, end)), Some((start, end)));
    }
}

#[test]
fn documents_open_change_and_close() {
    let mut documents = Documents::new();
    assert!(documents.get("file:///a.luaux").is_none());

    documents.open("file:///a.luaux".into(), 1, "one\n".into());
    documents.open("file:///b.luaux".into(), 1, "two\n".into());
    assert!(documents.change(
        "file:///a.luaux",
        2,
        &[change(range((0, 0), (0, 1)), "O"), change(range((0, 3), (0, 3)), "!")],
    ));
    let a = documents.get("file:///a.luaux").expect("open");
    assert_eq!((a.version, a.text.as_str()), (2, "One!\n"));
    assert!(!documents.change("file:///c.luaux", 2, &[]));

    let mut uris = documents.uris();
    uris.sort();
    assert_eq!(uris, ["file:///a.luaux", "file:///b.luaux"]);

    documents.close("file:///a.luaux");
    assert!(documents.get("file:///a.luaux").is_none());
    assert_eq!(documents.uris().len(), 1);
}

#[test]
fn a_document_can_be_changed_in_place() {
    let mut documents = Documents::new();
    documents.open("file:///a.luaux".into(), 1, "one\n".into());
    let document = documents.get_mut("file:///a.luaux").expect("open");
    assert!(document.apply(&Json::object().with("text", Json::text("two\n"))));
    assert_eq!(documents.get("file:///a.luaux").expect("open").text, "two\n");
    assert!(documents.get_mut("file:///b.luaux").is_none());
}

#[test]
fn a_position_too_large_is_not_wrapped_round() {
    let document = document("a\n");
    assert_eq!(document.byte_offset(&position(4294967296, 0)), None);
    assert_eq!(document.byte_offset(&position(0, 4294967296)), Some(1));
    assert_eq!(document.byte_offset(&position(0, u64::MAX)), Some(1));
}
