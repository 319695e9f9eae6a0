use luaux_lsp::document::Document;
use luaux_lsp::json::Json;
use luaux_lsp::symbols::symbols;

fn outline(source: &str) -> Json {
    symbols(&Document::new("file:///a.luaux".into(), 1, source.into()))
}

fn at<'a>(value: &'a Json, path: &[&str]) -> &'a Json {
    path.iter().fold(value, |value, key| match value {
        Json::Array(items) => &items[key.parse::<usize>().expect("an index")],
        _ => value.get(key).unwrap_or_else(|| panic!("{key} in {value:?}")),
    })
}

#[test]
fn nesting_is_preserved() {
    let value = outline("local e = <Frame><TextLabel/></Frame>");

    assert_eq!(at(&value, &["0", "name"]), &Json::text("Frame"));
    assert_eq!(at(&value, &["0", "children", "0", "name"]), &Json::text("TextLabel"));
    assert_eq!(at(&value, &["0", "kind"]), &Json::number(5));
}

#[test]
fn the_name_attribute_becomes_the_detail() {
    let value = outline("local e = <Frame Name=\"Header\"/>");
    assert_eq!(at(&value, &["0", "detail"]), &Json::text("Header"));
}

#[test]
fn the_selection_range_covers_the_opening_name() {
    let source = "local e = <Frame></Frame>";
    let value = outline(source);

    assert_eq!(at(&value, &["0", "selectionRange", "start", "character"]), &Json::number(11));
    assert_eq!(at(&value, &["0", "selectionRange", "end", "character"]), &Json::number(16));
}

#[test]
fn a_fragment_is_shown_as_one() {
    let value = outline("local e = (<><Frame/></>)");
    assert_eq!(at(&value, &["0", "name"]), &Json::text("<>"));
    assert_eq!(at(&value, &["0", "kind"]), &Json::number(19));
    assert_eq!(at(&value, &["0", "children", "0", "name"]), &Json::text("Frame"));
}

#[test]
fn a_file_without_luaux_has_no_outline_of_ours() {
    // luau-lsp still provides the Luau symbols; ours is additive.
    assert_eq!(outline("local x = 1"), Json::Array(vec![]));
}

#[test]
fn a_half_typed_file_still_outlines_what_parsed() {
    let value = outline("local a = <Frame/>\nlocal b = <Fra");
    assert_eq!(value.as_array().expect("array").len(), 1);
}
