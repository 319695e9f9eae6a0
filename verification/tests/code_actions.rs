use luaux::config::Config;
use luaux_lsp::analysis::{compile, places, Analysis};
use luaux_lsp::code_actions::{actions, ours};
use luaux_lsp::document::Document;
use luaux_lsp::json::Json;
use luaux_lsp::project::Project;
use luaux_lsp::scan::Context;

fn fixes(source: &str) -> Vec<Json> {
    let document = Document::new("file:///a.luaux".into(), 1, source.into());
    let project = Project::new(Config::default(), None);
    let compilation = compile(&document, &project);
    let contexts = places(&document, &compilation)
        .into_iter()
        .map(|start| Context::AttributeName {
            tag: "Frame".to_string(),
            start,
            prefix: String::new(),
        })
        .collect();
    let analysis = Analysis::run(&document, &project, None, compilation, &contexts);

    match actions(&document.uri, &analysis.diagnostics) {
        Json::Array(actions) => actions,
        other => panic!("{other:?}"),
    }
}

fn at<'a>(value: &'a Json, path: &[&str]) -> &'a Json {
    path.iter().fold(value, |value, key| match value {
        Json::Array(items) => &items[key.parse::<usize>().expect("an index")],
        _ => value.get(key).unwrap_or_else(|| panic!("{key} in {value:?}")),
    })
}

#[test]
fn a_misspelt_element_offers_the_class() {
    let actions = fixes("local create = f()\nlocal e = <Frmae/>\n");
    assert_eq!(actions[0].get_str("title"), Some("Change element to Frame"));
    assert_eq!(actions[0].get_str("kind"), Some("quickfix"));
    assert_eq!(actions[0].get("isPreferred"), Some(&Json::Bool(true)));
}

#[test]
fn the_edit_replaces_only_the_name() {
    let source = "local create = f()\nlocal e = <Frmae/>\n";
    let actions = fixes(source);
    let edit = at(&actions[0], &["edit", "changes", "file:///a.luaux", "0"]);

    // `<` stays; only `Frmae` is replaced.
    assert_eq!(at(edit, &["range", "start", "character"]), &Json::number(11));
    assert_eq!(at(edit, &["range", "end", "character"]), &Json::number(16));
    assert_eq!(edit.get_str("newText"), Some("Frame"));
}

#[test]
fn a_misspelt_attribute_offers_every_candidate() {
    let actions = fixes("local create = f()\nlocal e = <Frame Color3={c}/>\n");
    let titles: Vec<&str> =
        actions.iter().map(|action| action.get_str("title").unwrap_or_default()).collect();

    // `Color3` sits inside several qualified names and nothing can tell
    // which was meant, so all of them are offered.
    assert!(titles.contains(&"Change attribute to BackgroundColor3"), "{titles:?}");
    assert!(titles.contains(&"Change attribute to BorderColor3"), "{titles:?}");
    assert!(titles.len() > 1);
}

#[test]
fn only_the_first_candidate_is_preferred() {
    let actions = fixes("local create = f()\nlocal e = <Frame Color3={c}/>\n");
    for (index, action) in actions.iter().enumerate() {
        assert_eq!(action.get("isPreferred"), Some(&Json::Bool(index == 0)));
    }
}

#[test]
fn a_diagnostic_with_no_suggestion_offers_no_fix() {
    // `Receipt` is nothing like any class, and inventing a fix would be worse
    // than none.
    assert_eq!(fixes("local create = f()\nlocal e = <Receipt/>\n"), vec![]);
}

#[test]
fn only_our_diagnostics_are_claimed() {
    let diagnostic = |source: &str, message: &str| {
        Json::object().with("source", Json::text(source)).with("message", Json::text(message))
    };
    let context = Json::object().with(
        "diagnostics",
        Json::Array(vec![diagnostic("luaux", "ours"), diagnostic("Luau", "theirs")]),
    );

    let mine = ours(&context);
    assert_eq!(mine.len(), 1);
    assert_eq!(mine[0].get_str("message"), Some("ours"));
    assert!(ours(&Json::object()).is_empty());
}

#[test]
fn a_diagnostic_of_an_unknown_kind_offers_nothing() {
    let data = Json::object()
        .with("kind", Json::text("other"))
        .with("range", Json::Null)
        .with("candidates", Json::Array(vec![Json::text("Frame")]));
    let diagnostic = Json::object().with("data", data);
    assert_eq!(actions("file:///a.luaux", &[diagnostic]), Json::Array(vec![]));
}
