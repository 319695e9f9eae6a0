use luaux_lsp::document::Document;
use luaux_lsp::json::Json;
use luaux_lsp::rename::{is_element_name, prepare, rename, Answer};
use luaux_lsp::scan::{Context, Scan};

fn document(text: &str) -> Document {
    Document::new("file:///a.luaux".into(), 1, text.into())
}

/// A scan of a place that is not Luau.
fn in_markup() -> Scan {
    Scan { context: Context::Text, open: Vec::new() }
}

fn at<'a>(value: &'a Json, path: &[&str]) -> &'a Json {
    path.iter().fold(value, |value, key| match value {
        Json::Array(items) => &items[key.parse::<usize>().expect("an index")],
        _ => value.get(key).unwrap_or_else(|| panic!("{key} in {value:?}")),
    })
}

fn edits(marked: &str, new_name: &str) -> Option<Vec<(u64, u64)>> {
    let cursor = marked.find('|').expect("a cursor marker");
    let document = document(&marked.replace('|', ""));

    match rename(&document, &in_markup(), cursor, new_name) {
        Answer::Ours(value) => Some(
            at(&value, &["changes", "file:///a.luaux"])
                .as_array()
                .expect("edits")
                .iter()
                .map(|edit| {
                    assert_eq!(edit.get_str("newText"), Some(new_name));
                    (
                        at(edit, &["range", "start", "line"]).as_u64().expect("line"),
                        at(edit, &["range", "start", "character"]).as_u64().expect("character"),
                    )
                })
                .collect(),
        ),
        _ => None,
    }
}

#[test]
fn a_pair_is_renamed_together() {
    let edits = edits("local e = <Fr|ame></Frame>", "Panel").expect("edits");
    assert_eq!(edits, [(0, 11), (0, 19)]);
}

#[test]
fn renaming_from_the_closing_half_renames_both() {
    let edits = edits("local e = <Frame></Fr|ame>", "Panel").expect("edits");
    assert_eq!(edits.len(), 2);
}

#[test]
fn a_self_closing_element_has_one_edit() {
    let edits = edits("local e = <Fr|ame/>", "Panel").expect("edits");
    assert_eq!(edits, [(0, 11)]);
}

#[test]
fn a_nested_element_renames_only_itself() {
    let edits = edits("local e = <Frame><Text|Label></TextLabel></Frame>", "Row").expect("edits");
    assert_eq!(edits.len(), 2);
    // Neither edit touches the outer `Frame`.
    assert!(edits.iter().all(|(_, character)| *character > 16));
}

#[test]
fn a_name_that_would_not_parse_is_refused() {
    // Applying half of this would leave a file that does not compile, and
    // the editor has no way to take it back.
    for name in ["", "1Frame", "a b", "Frame>"] {
        assert!(edits("local e = <Fr|ame/>", name).is_none(), "{name:?}");
    }
    // A dotted component name is legal.
    assert!(edits("local e = <Fr|ame/>", "Foo.Bar").is_some());
}

#[test]
fn luau_positions_are_forwarded() {
    let luau = Scan { context: Context::Luau, open: Vec::new() };
    let plain = document("local x = 1");
    assert!(matches!(rename(&plain, &luau, 7, "y"), Answer::Forward));

    let expression = Scan { context: Context::Expression, open: Vec::new() };
    let source = "local e = <Frame Size={size}/>";
    let inside = document(source);
    let cursor = source.find("size").expect("expression");
    assert!(matches!(rename(&inside, &expression, cursor, "y"), Answer::Forward));
}

#[test]
fn prepare_reports_the_name_it_would_rename() {
    let source = "local e = <Frame></Frame>";
    let document = document(source);

    let Answer::Ours(range) =
        prepare(&document, &in_markup(), source.find("Frame").expect("tag"))
    else {
        panic!("expected a range");
    };
    assert_eq!(at(&range, &["start", "character"]), &Json::number(11));
    assert_eq!(at(&range, &["end", "character"]), &Json::number(16));
}

#[test]
fn a_fragment_is_not_renameable() {
    let source = "local e = (<><Frame/></>)";
    let document = document(source);
    assert!(matches!(
        prepare(&document, &in_markup(), source.find("<>").expect("fragment") + 1),
        Answer::Nothing
    ));
}

#[test]
fn every_part_of_a_dotted_name_has_to_be_a_name() {
    assert!(is_element_name("_a1.B"));
    for name in [".", "a.", ".a", "a..b", "a.1", "é"] {
        assert!(!is_element_name(name), "{name:?}");
    }
}

#[test]
fn what_a_self_closing_element_holds_is_left_alone() {
    let edits = edits("local e = <Fr|ame Name=\"</Frame\"/>", "Panel").expect("edits");
    assert_eq!(edits, [(0, 11)]);
}
