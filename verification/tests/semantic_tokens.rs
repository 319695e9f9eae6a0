use luaux::config::Config;
use luaux_lsp::document::Document;
use luaux_lsp::project::Project;
use luaux_lsp::semantic_tokens::{sort_by_start, tokens, Coloured, CLASS, COMPONENT, TYPES};

fn project(config: &str) -> Project {
    Project::new(Config::parse(config).expect("config"), None)
}

/// Decoded back into (line, character, length, kind).
fn decoded(source: &str, config: &str) -> Vec<(u32, u32, u32, u32)> {
    let document = Document::new("file:///a.luaux".into(), 1, source.into());
    let value = tokens(&document, &project(config));
    let data: Vec<u32> = value
        .get_array("data")
        .expect("data")
        .iter()
        .map(|number| number.as_u64().expect("a number") as u32)
        .collect();

    let mut out = Vec::new();
    let (mut line, mut character) = (0u32, 0u32);

    for chunk in data.chunks(5) {
        line += chunk[0];
        character = if chunk[0] == 0 { character + chunk[1] } else { chunk[1] };
        out.push((line, character, chunk[2], chunk[3]));
    }

    out
}

#[test]
fn a_class_and_a_component_are_told_apart() {
    let tokens = decoded("local Row = f()\nlocal e = <Frame><Row/></Frame>", "");
    let kinds: Vec<u32> = tokens.iter().map(|token| token.3).collect();

    // Frame open, Row, Frame close.
    assert_eq!(kinds, [CLASS, COMPONENT, CLASS]);
}

#[test]
fn positions_are_the_names_themselves() {
    let tokens = decoded("local e = <Frame/>", "");
    assert_eq!(tokens, [(0, 11, 5, CLASS)]);
}

#[test]
fn both_halves_of_a_pair_are_coloured() {
    let tokens = decoded("local e = <Frame></Frame>", "");
    assert_eq!(tokens.len(), 2);
    assert_eq!(tokens[1].1, 19);
}

#[test]
fn deltas_are_relative_and_ordered() {
    let tokens = decoded("local e = (\n  <Frame>\n    <UICorner/>\n  </Frame>\n)", "");
    let lines: Vec<u32> = tokens.iter().map(|token| token.0).collect();
    assert_eq!(lines, [1, 2, 3]);
}

#[test]
fn a_dotted_name_is_a_component() {
    let tokens = decoded("local Foo = f()\nlocal e = <Foo.Bar/>", "");
    assert_eq!(tokens.iter().map(|token| token.3).collect::<Vec<_>>(), [COMPONENT]);
}

#[test]
fn an_alias_is_still_a_class() {
    let tokens = decoded("local e = <text/>", "[elements]\nTextLabel = \"text\"\n");
    assert_eq!(tokens.iter().map(|token| token.3).collect::<Vec<_>>(), [CLASS]);
}

#[test]
fn a_name_that_resolves_to_nothing_is_left_alone() {
    // The compiler already reports it; the grammar's colour is the honest
    // fallback rather than a confident wrong one.
    assert!(decoded("local e = <Frmae/>", "").is_empty());
}

#[test]
fn a_retired_spelling_is_left_alone() {
    let config = "[elements]\nTextLabel = \"text\"\n";
    assert!(decoded("local e = <TextLabel/>", config).is_empty());
}

#[test]
fn nested_luaux_in_an_expression_is_coloured_too() {
    let tokens = decoded("local Row = f()\nlocal e = <Frame>{cond and <Row/> or nil}</Frame>", "");
    assert_eq!(
        tokens.iter().map(|token| token.3).collect::<Vec<_>>(),
        [CLASS, COMPONENT, CLASS]
    );
}

#[test]
fn sorting_keeps_the_order_of_names_that_begin_together() {
    let name = |start, kind| Coloured { start, end: start + 1, kind };
    assert_eq!(
        sort_by_start(&vec![name(5, 0), name(2, 1), name(5, 1), name(2, 0)]),
        vec![name(2, 1), name(2, 0), name(5, 0), name(5, 1)]
    );
}

#[test]
fn the_legend_names_both_kinds() {
    assert_eq!(TYPES[CLASS as usize], "class");
    assert_eq!(TYPES[COMPONENT as usize], "function");
}
