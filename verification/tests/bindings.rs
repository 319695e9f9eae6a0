use luaux_lsp::bindings::find;
use luaux_lsp::resolving::blank;

fn found(source: &str, name: &str) -> Option<String> {
    find(source, name).map(|(start, end)| source[start..end].to_string())
}

#[test]
fn finds_the_usual_shapes() {
    for source in [
        "local Row = require('./Row')",
        "local function Row() end",
        "function Row() end",
        "local Row",
    ] {
        assert_eq!(found(source, "Row").as_deref(), Some("Row"), "{source}");
    }
}

#[test]
fn finds_a_name_later_in_a_local_list() {
    assert_eq!(found("local a, Row = f()", "Row").as_deref(), Some("Row"));
    assert_eq!(found("local a, b, Row = f()", "Row").as_deref(), Some("Row"));
}

#[test]
fn a_use_is_not_a_binding() {
    assert_eq!(found("Row()", "Row"), None);
    assert_eq!(found("local x = Row", "Row"), None);
    // `t.Row = 1` assigns a field, not a name.
    assert_eq!(found("local t = {}\nt.Row = 1", "Row"), None);
}

#[test]
fn the_binding_is_found_past_luaux() {
    // The region is blanked first, or the file does not lex at all.
    let source = "local e = <Frame/>\nlocal Row = f()";
    let at = find(source, "Row").expect("a binding");
    assert_eq!(&source[at.0..at.1], "Row");
    assert!(at.0 > source.find("Frame").expect("region"));
}

#[test]
fn an_unknown_name_is_not_invented() {
    assert_eq!(found("local x = 1", "Row"), None);
}

#[test]
fn a_file_that_does_not_lex_binds_nothing() {
    assert_eq!(find("local Row = \"", "Row"), None);
}

#[test]
fn an_assignment_after_a_declaration_is_not_part_of_it() {
    assert_eq!(find("local a\nfoo, Row = f()", "Row"), None);
    assert_eq!(find("local a\na, Row = f()", "Row"), None);
}

#[test]
fn what_is_found_is_what_the_source_holds() {
    let source = "local a = <Frame Name='é'/>\nlocal b = <Row>{x}</Row>\nlocal Button = 1";
    assert_eq!(found(source, "Button").as_deref(), Some("Button"));
    // The filler of a region is no name of the source.
    assert_eq!(find("local <Frame/>", "Frame"), None);
}

#[test]
fn regions_are_blanked_byte_for_byte() {
    assert_eq!(blank("local e = <Frame\n/> -- <a/>"), "local e = nil   \n   -- <a/>");
    assert_eq!(blank("f(<A>é</A>, <b/>)"), "f(nil      , nil )");
    // A character of several bytes at the third byte gets one.
    assert_eq!(blank("<>é</>"), "nil   ");
}
