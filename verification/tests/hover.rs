use luaux::config::Config;
use luaux_lsp::api::{Api, Documentation, Documented};
use luaux_lsp::document::Document;
use luaux_lsp::hover::{definition, hover, Answer};
use luaux_lsp::json::Json;
use luaux_lsp::project::Project;
use luaux_lsp::scan::{Context, Scan};

fn project(config: &str) -> Project {
    Project::new(Config::parse(config).expect("config"), None)
}

fn document(text: &str) -> Document {
    Document::new("file:///a.luaux".into(), 1, text.into())
}

fn scan(context: Context) -> Scan {
    Scan { context, open: Vec::new() }
}

/// The name that has been typed up to `cursor`, and where it begins.
fn typed(text: &str, cursor: usize) -> (usize, String) {
    let start = text[..cursor]
        .rfind(|c: char| c != '_' && c != '.' && !c.is_ascii_alphanumeric())
        .map_or(0, |at| at + 1);
    (start, text[start..cursor].to_string())
}

/// A scan of a tag name that has been typed up to `cursor`.
fn in_tag(text: &str, cursor: usize) -> Scan {
    let (start, prefix) = typed(text, cursor);
    scan(Context::TagName { start, prefix, closing: text[..start].ends_with('/') })
}

/// A scan of an attribute of `tag` that has been typed up to `cursor`.
fn in_attribute(text: &str, cursor: usize, tag: &str) -> Scan {
    let (start, prefix) = typed(text, cursor);
    scan(Context::AttributeName { tag: tag.to_string(), start, prefix })
}

fn said(answer: Answer) -> Option<String> {
    match answer {
        // `Both` still carries our text; it just lets luau-lsp add to it.
        Answer::Ours(value) | Answer::Both { ours: value, .. } => {
            Some(value.get("contents")?.get_str("value")?.to_string())
        }
        _ => None,
    }
}

fn hover_text(marked: &str, config: &str) -> Option<String> {
    let cursor = marked.find('|').expect("a cursor marker");
    let document = document(&marked.replace('|', ""));
    let scan = in_tag(&document.text, cursor);
    said(hover(&document, &project(config), &scan, None, cursor))
}

fn hover_attribute(marked: &str, tag: &str, config: &str, api: Option<&Api>) -> Option<String> {
    let cursor = marked.find('|').expect("a cursor marker");
    let document = document(&marked.replace('|', ""));
    let scan = in_attribute(&document.text, cursor, tag);
    said(hover(&document, &project(config), &scan, api, cursor))
}

#[test]
fn a_class_says_it_is_one() {
    let text = hover_text("local e = <Fra|me/>", "").expect("hover");
    assert!(text.contains("Roblox class"), "{text}");
    assert!(text.contains("Inherits `GuiObject`"), "{text}");
}

#[test]
fn a_dotted_name_is_always_a_component() {
    let text = hover_text("local Foo = f()\nlocal e = <Foo.Ba|r/>", "").expect("hover");
    assert!(text.contains("Component"), "{text}");
}

#[test]
fn a_text_bearing_class_says_what_text_children_do() {
    let text = hover_text("local e = <Text|Label>Hi</TextLabel>", "").expect("hover");
    assert!(text.contains("`Text` property"), "{text}");

    let frame = hover_text("local e = <Fra|me/>", "").expect("hover");
    assert!(!frame.contains("`Text` property"), "{frame}");
}

#[test]
fn a_component_says_where_it_came_from() {
    let text = hover_text("local Row = require('./Row')\nlocal e = <Ro|w/>", "").expect("hover");
    assert!(text.contains("Component"), "{text}");
    assert!(text.contains("line 1"), "{text}");
}

/// A component tag is a Luau identifier as well as a tag, so luau-lsp gets
/// asked too — its type and the doc comment above the binding are things
/// this server cannot work out. A class is a string in the generated code
/// and there is nothing there to ask about.
#[test]
fn a_component_also_asks_luau_lsp_and_a_class_does_not() {
    let component = document("local Row = require('./Row')\nlocal e = <Row/>");
    let at = "local Row = require('./Row')\nlocal e = <R".len();
    let scan = in_tag(&component.text, at);
    assert!(matches!(
        hover(&component, &project(""), &scan, None, at),
        Answer::Both { .. }
    ));

    let class = document("local e = <Frame/>");
    let at = "local e = <Fra".len();
    let scan = in_tag(&class.text, at);
    assert!(matches!(hover(&class, &project(""), &scan, None, at), Answer::Ours(_)));
}

#[test]
fn a_closing_name_asks_about_the_opening_one() {
    let source = "local Row = f()\nlocal e = <Row></Row>";
    let document = document(source);
    let at = source.rfind("Row").expect("close") + 1;
    let Answer::Both { at, .. } =
        hover(&document, &project(""), &in_tag(source, at), None, at)
    else {
        panic!("expected both");
    };
    assert_eq!(at, source.find("<Row>").expect("open") + 1);
}

#[test]
fn an_alias_reports_the_class_it_stands_for() {
    let text =
        hover_text("local e = <te|xt/>", "[elements]\nTextLabel = \"text\"\n").expect("hover");
    assert!(text.contains("TextLabel"), "{text}");
    assert!(text.contains("written `text`"), "{text}");
}

#[test]
fn an_unresolvable_tag_says_so_rather_than_guessing() {
    let text = hover_text("local e = <Recei|pt/>", "").expect("hover");
    assert!(text.contains("not bound"), "{text}");
}

#[test]
fn a_half_typed_tag_still_hovers() {
    let text = hover_text("local e = <Fra|", "").expect("hover");
    assert!(text.contains("not bound"), "{text}");
}

const DEFINITIONS: &str = "\
declare extern type GuiObject with
\tBackgroundColor3: Color3
\tMouseEnter: RBXScriptSignal<(number, number)>
end
declare extern type Frame extends GuiObject with
end
declare extern type TextButton extends GuiObject with
end
declare extern type TextLabel extends GuiObject with
\tText: string
end
";

fn types() -> Api {
    Api::new(
        DEFINITIONS,
        vec![Documented {
            key: "@roblox/globaltype/GuiObject.MouseEnter".to_string(),
            says: Documentation {
                documentation: "Fires over a <code>GuiObject</code>.".to_string(),
                learn_more_link: "https://example.invalid".to_string(),
            },
        }],
    )
}

#[test]
fn an_event_hover_gives_its_signature_and_what_a_handler_takes() {
    let text = hover_attribute(
        "local e = <TextButton Mouse|Enter={f}/>",
        "TextButton",
        "",
        Some(&types()),
    )
    .expect("hover");

    assert!(text.contains("MouseEnter: RBXScriptSignal<"), "{text}");
    // Declared above where it is written.
    assert!(text.contains("Event of `GuiObject`"), "{text}");
    // And the shape of a handler, which is the question asked right before
    // writing one.
    assert!(text.contains("function of `(number, number)`"), "{text}");
    assert_eq!(
        text,
        "```luau\nMouseEnter: RBXScriptSignal<(number, number)>\n```\n\nEvent of `GuiObject`.\n\n\
         Connect a function of `(number, number)`.\n\n---\n\nFires over a `GuiObject`.\n\n\
         [Learn more](https://example.invalid)"
    );
}

#[test]
fn a_property_hover_gives_its_type() {
    let text = hover_attribute(
        "local e = <TextLabel Te|xt='hi'/>",
        "TextLabel",
        "",
        Some(&types()),
    )
    .expect("hover");
    assert!(text.contains("Text: string"), "{text}");
    assert!(text.contains("Property of `TextLabel`"), "{text}");
}

#[test]
fn a_hover_without_definitions_still_names_the_member() {
    let text =
        hover_attribute("local e = <TextLabel Te|xt='hi'/>", "TextLabel", "", None).expect("hover");
    assert_eq!(text, "```luau\nText\n```\n\nProperty of `TextLabel`.");
}

#[test]
fn an_aliased_attribute_hover_names_both_spellings() {
    let text = hover_attribute(
        "local e = <Frame bgCol|or={c}/>",
        "Frame",
        "[properties.Frame]\nBackgroundColor3 = \"bgColor\"\n",
        Some(&types()),
    )
    .expect("hover");

    assert!(text.contains("BackgroundColor3"), "{text}");
    assert!(text.contains("written `bgColor`"), "{text}");
}

#[test]
fn an_attribute_a_class_does_not_have_hovers_to_nothing() {
    // The compiler already reports it as an error; inventing a description
    // would dress a mistake up as a fact.
    assert_eq!(hover_attribute("local e = <Frame Nonsen|se={x}/>", "Frame", "", None), None);
    // And a component's props are its own business.
    assert_eq!(
        hover_attribute("local Row = f()\nlocal e = <Row Any|thing={x}/>", "Row", "", None),
        None
    );
}

#[test]
fn expressions_and_luau_are_forwarded() {
    let cursor = "local e = <Frame Size={si".len();
    let inside = document("local e = <Frame Size={size}/>");
    assert!(matches!(
        hover(&inside, &project(""), &scan(Context::Expression), None, cursor),
        Answer::Forward
    ));

    let plain = document("local x = 1");
    assert!(matches!(
        hover(&plain, &project(""), &scan(Context::Luau), None, 7),
        Answer::Forward
    ));
}

#[test]
fn definition_goes_to_a_components_binding() {
    let source = "local Row = require('./Row')\nlocal e = <Row/>";
    let document = document(source);
    let cursor = source.rfind("Row").expect("use");

    let Answer::Ours(value) =
        definition(&document, &project(""), &in_tag(source, cursor), cursor)
    else {
        panic!("expected a location");
    };
    let start = value.get("range").and_then(|range| range.get("start")).expect("a start");
    assert_eq!(start.get("line"), Some(&Json::number(0)));
    assert_eq!(start.get("character"), Some(&Json::number(6)));
    assert_eq!(value.get_str("uri"), Some("file:///a.luaux"));
}

#[test]
fn definition_on_a_class_goes_nowhere() {
    // A class is not defined in this project, and the nearest same-named
    // local is not its definition.
    let source = "local e = <Frame/>";
    let document = document(source);
    let cursor = source.find("Frame").expect("tag");
    assert!(matches!(
        definition(&document, &project(""), &in_tag(source, cursor), cursor),
        Answer::Nothing
    ));
}
