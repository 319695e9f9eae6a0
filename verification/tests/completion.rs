use luaux::config::Config;
use luaux_lsp::api::{Api, Documentation, Documented};
use luaux_lsp::completion::{
    complete, components, handler, html_to_markdown, members, props, Completion,
};
use luaux_lsp::document::Document;
use luaux_lsp::json::Json;
use luaux_lsp::project::Project;
use luaux_lsp::scan::{Context, Open, Scan};

fn project(config: &str) -> Project {
    Project::new(Config::parse(config).expect("config"), None)
}

/// A document and where the `|` was in it.
fn marked(text: &str) -> (Document, usize) {
    let cursor = text.find('|').expect("a cursor marker");
    (Document::new("file:///a.luaux".into(), 1, text.replace('|', "")), cursor)
}

/// The name that has been typed up to `cursor`, and where it begins.
fn typed(text: &str, cursor: usize) -> (usize, String) {
    let start = text[..cursor]
        .rfind(|c: char| c != '_' && c != '.' && !c.is_ascii_alphanumeric())
        .map_or(0, |at| at + 1);
    (start, text[start..cursor].to_string())
}

/// Completes a tag name at `|`, inside the elements that are open there.
fn complete_tag(text: &str, open: &[&str], config: &str) -> Completion {
    let (document, cursor) = marked(text);
    let (start, prefix) = typed(&document.text, cursor);
    let closing = document.text[..start].ends_with('/');
    let scan = Scan {
        context: Context::TagName { start, prefix, closing },
        open: open.iter().map(|name| Open { name: name.to_string() }).collect(),
    };
    complete(&document, &project(config), &scan, None, false)
}

/// Completes an attribute of `tag` at `|`.
fn complete_attribute(
    text: &str,
    tag: &str,
    config: &str,
    api: Option<&Api>,
    snippets: bool,
) -> Completion {
    let (document, cursor) = marked(text);
    let (start, prefix) = typed(&document.text, cursor);
    let scan = Scan {
        context: Context::AttributeName { tag: tag.to_string(), start, prefix },
        open: Vec::new(),
    };
    complete(&document, &project(config), &scan, api, snippets)
}

/// Completes somewhere that is neither a tag's nor an attribute's name.
fn complete_in(text: &str, context: Context) -> Completion {
    let (document, _) = marked(text);
    complete(&document, &project(""), &Scan { context, open: Vec::new() }, None, false)
}

fn items(completion: Completion) -> Vec<Json> {
    match completion {
        Completion::Ours(list) => list.get_array("items").expect("items").iter().map(copy).collect(),
        Completion::Forward => panic!("forwarded"),
        Completion::ComponentProps { .. }
        | Completion::TagMembers { .. }
        | Completion::Nothing => Vec::new(),
    }
}

fn copy(value: &Json) -> Json {
    value.copy()
}

fn labels_of(items: &[Json]) -> Vec<String> {
    items.iter().map(|item| item.get_str("label").unwrap_or_default().to_string()).collect()
}

fn tag_labels(text: &str, config: &str) -> Vec<String> {
    labels_of(&items(complete_tag(text, &[], config)))
}

fn attribute_labels(text: &str, tag: &str, config: &str) -> Vec<String> {
    labels_of(&items(complete_attribute(text, tag, config, None, false)))
}

fn at<'a>(value: &'a Json, path: &[&str]) -> &'a Json {
    path.iter().fold(value, |value, key| match value {
        Json::Array(items) => &items[key.parse::<usize>().expect("an index")],
        _ => value.get(key).unwrap_or_else(|| panic!("{key} in {value:?}")),
    })
}

#[test]
fn a_tag_offers_the_class_list() {
    let labels = tag_labels("local e = <Fra|", "");
    assert!(labels.contains(&"Frame".to_string()));
    assert!(labels.contains(&"TextLabel".to_string()));
    // Not creatable, so not an element.
    assert!(!labels.contains(&"Players".to_string()));
}

#[test]
fn a_bare_open_angle_offers_them_too() {
    assert!(tag_labels("local e = <|", "").contains(&"Frame".to_string()));
}

#[test]
fn bound_names_are_offered_as_components() {
    let labels = tag_labels("local Receipt = require('./Receipt')\nlocal e = <|", "");
    assert!(labels.contains(&"Receipt".to_string()), "{labels:?}");
    // Lowercase locals are not components by convention, and there are a lot
    // of them.
    assert!(!labels.contains(&"require".to_string()));
}

#[test]
fn components_are_sorted_and_are_not_classes() {
    let source = "local Zed, Ach, low, Frame, Éa = f()\nlocal Ach = g()\n";
    assert_eq!(components(source, &Config::default()), ["Ach", "Zed"]);
}

#[test]
fn an_alias_replaces_the_class_it_renamed() {
    let labels = tag_labels("local e = <|", "[elements]\nTextLabel = \"text\"\n");
    assert!(labels.contains(&"text".to_string()), "{labels:?}");
    // Exclusive: offering the retired spelling would suggest an error.
    assert!(!labels.contains(&"TextLabel".to_string()), "{labels:?}");
}

#[test]
fn attributes_come_from_the_class_and_its_ancestors() {
    let labels = attribute_labels("local e = <TextLabel Te|", "TextLabel", "");
    assert!(labels.contains(&"Text".to_string()));
    // Inherited from GuiObject.
    assert!(labels.contains(&"BackgroundColor3".to_string()));
    // Read-only, so it cannot be set.
    assert!(!labels.contains(&"ContentText".to_string()));
}

#[test]
fn events_are_offered_alongside_properties() {
    let labels = attribute_labels("local e = <TextButton |/>", "TextButton", "");
    assert!(labels.contains(&"Activated".to_string()), "{labels:?}");
}

/// `[elements] all` renames every class at once and retires the canonical
/// spelling, so offering `TextLabel` there offers the one thing that is an
/// error.
#[test]
fn a_casing_scheme_renames_every_tag() {
    let camel = tag_labels("local e = <|", "[elements]\nall = \"camelCase\"\n");
    assert!(camel.contains(&"textLabel".to_string()), "{:?}", &camel[..5.min(camel.len())]);
    assert!(!camel.contains(&"TextLabel".to_string()), "the retired spelling is offered");
    // Word boundaries come from the canonical name: `UI` stays one word.
    assert!(camel.contains(&"uiCorner".to_string()));

    let snake = tag_labels("local e = <|", "[elements]\nall = \"snake_case\"\n");
    assert!(snake.contains(&"ui_corner".to_string()), "{:?}", &snake[..5.min(snake.len())]);

    let flat = tag_labels("local e = <|", "[elements]\nall = \"flatcase\"\n");
    assert!(flat.contains(&"uicorner".to_string()));
}

#[test]
fn an_explicit_entry_still_beats_the_scheme() {
    let labels =
        tag_labels("local e = <|", "[elements]\nall = \"camelCase\"\nTextLabel = \"text\"\n");
    assert!(labels.contains(&"text".to_string()), "the override is missing");
    // Neither the canonical nor the scheme's form: both are retired.
    assert!(!labels.contains(&"TextLabel".to_string()));
    assert!(!labels.contains(&"textLabel".to_string()));
    // And every other class still follows the scheme.
    assert!(labels.contains(&"uiCorner".to_string()));
}

#[test]
fn a_casing_scheme_renames_every_attribute() {
    let labels = attribute_labels(
        "local e = <TextLabel |/>",
        "TextLabel",
        "[properties]\nall = \"snake_case\"\n",
    );
    assert!(labels.contains(&"background_transparency".to_string()));
    assert!(!labels.contains(&"BackgroundTransparency".to_string()));
}

/// `ChildAdded` and `childAdded` both live on `Instance`, so they collapse
/// onto one spelling under any scheme — and two identical entries meaning
/// different things is worse than one.
#[test]
fn a_collided_member_is_offered_once() {
    let labels = attribute_labels(
        "local e = <TextLabel |/>",
        "TextLabel",
        "[properties]\nall = \"snake_case\"\n",
    );
    let collided = labels.iter().filter(|label| *label == "child_added").count();
    assert_eq!(collided, 1, "{collided} entries for child_added");

    let mut seen = std::collections::HashSet::new();
    for label in &labels {
        assert!(seen.insert(label), "{label} offered twice");
    }
}

#[test]
fn attribute_aliases_are_honoured() {
    let labels = attribute_labels(
        "local e = <Frame |/>",
        "Frame",
        "[properties.Frame]\nBackgroundColor3 = \"bgColor\"\n",
    );
    assert!(labels.contains(&"bgColor".to_string()), "{labels:?}");
    assert!(!labels.contains(&"BackgroundColor3".to_string()), "{labels:?}");
}

fn types() -> Api {
    Api::new(
        "declare extern type GuiObject with\n\tMouseEnter: RBXScriptSignal<(number, number)>\nend\n\
         declare extern type TextButton extends GuiObject with\nend\n\
         declare extern type TextLabel extends GuiObject with\n\tText: string\nend\n",
        vec![Documented {
            key: "@roblox/globaltype/TextLabel.Text".to_string(),
            says: Documentation {
                documentation: "The <b>string</b>.".to_string(),
                learn_more_link: "https://example.invalid".to_string(),
            },
        }],
    )
}

fn item_for(text: &str, tag: &str, label: &str, snippets: bool) -> Option<Json> {
    items(complete_attribute(text, tag, "", Some(&types()), snippets))
        .into_iter()
        .find(|item| item.get_str("label") == Some(label))
}

#[test]
fn an_attribute_is_described_by_its_type() {
    let event = item_for("local e = <TextButton |/>", "TextButton", "MouseEnter", false)
        .expect("MouseEnter");
    let detail = event.get_str("detail").expect("detail");
    assert!(detail.starts_with("RBXScriptSignal<"), "{detail}");
    assert!(detail.contains("number"), "{detail}");

    let property =
        item_for("local e = <TextLabel |/>", "TextLabel", "Text", false).expect("Text");
    assert_eq!(property.get_str("detail"), Some("string"));
    assert_eq!(
        at(&property, &["documentation", "value"]),
        &Json::text(
            "```luau\nstring\n```\n\nThe **string**.\n\n[Learn more](https://example.invalid)"
        )
    );
}

#[test]
fn completing_an_event_writes_the_handler_it_expects() {
    let event =
        item_for("local e = <TextButton |/>", "TextButton", "MouseEnter", true).expect("MouseEnter");

    // A snippet, with the parameters typed so they can be asked about
    // inside the body whatever the factory's own types say.
    assert_eq!(event.get_u64("insertTextFormat"), Some(2));
    assert_eq!(
        at(&event, &["textEdit", "newText"]),
        &Json::text("MouseEnter={function(${1:p1}: number, ${2:p2}: number) $3 end}")
    );

    // A property takes a value, not a handler.
    let property = item_for("local e = <TextLabel |/>", "TextLabel", "Text", true).expect("Text");
    assert_eq!(at(&property, &["textEdit", "newText"]), &Json::text("Text"));
    assert!(property.get("insertTextFormat").is_none());
}

#[test]
fn a_client_without_snippet_support_gets_a_plain_name() {
    // The placeholders would otherwise arrive as literal text.
    let event = item_for("local e = <TextButton |/>", "TextButton", "MouseEnter", false)
        .expect("MouseEnter");
    assert_eq!(at(&event, &["textEdit", "newText"]), &Json::text("MouseEnter"));
    assert!(event.get("insertTextFormat").is_none());
}

#[test]
fn a_handler_is_shaped_by_its_parameters() {
    assert_eq!(handler(&[]), "function() $1 end");
    assert_eq!(handler(&["InputObject".to_string()]), "function(${1:p1}: InputObject) $2 end");
}

#[test]
fn roblox_html_becomes_markdown() {
    // The docs are HTML fragments; markdown renders the tags as nothing.
    assert_eq!(
        html_to_markdown("Determines the <code>GuiObject</code> background <b>color</b>."),
        "Determines the `GuiObject` background **color**."
    );
    assert_eq!(html_to_markdown("<i>a</i><br/>b<br>c<br />"), "*a*\nb\nc<br />");
}

/// A component's props are declared in Luau, so the question goes to
/// luau-lsp at the call the tag becomes. This server never guesses them.
#[test]
fn a_component_asks_luau_lsp_for_its_props() {
    assert!(matches!(
        complete_attribute("local Row = f()\nlocal e = <Row |/>", "Row", "", None, false),
        Completion::ComponentProps { .. }
    ));

    // An intrinsic is answered here, from the Roblox tables.
    assert!(matches!(
        complete_attribute("local e = <TextLabel |/>", "TextLabel", "", None, false),
        Completion::Ours(_)
    ));
}

#[test]
fn a_dotted_tag_asks_luau_lsp_for_its_members() {
    let Completion::TagMembers { start, prefix } =
        complete_tag("local App = f()\nlocal e = <App.He|", &[], "")
    else {
        panic!("expected luau-lsp to be asked");
    };
    assert_eq!((start, prefix.as_str()), (27, "App.He"));
}

fn nowhere(end: u64) -> Json {
    let position = |character: u64| {
        Json::object().with("line", Json::number(0)).with("character", Json::number(character))
    };
    Json::object().with("start", position(0)).with("end", position(end))
}

fn offered(label: &str, kind: u64, detail: Option<&str>, sort: &str) -> Json {
    let item = Json::object().with("label", Json::text(label)).with("kind", Json::number(kind));
    let item = match detail {
        Some(detail) => item.with("detail", Json::text(detail)),
        None => item,
    };
    item.with("sortText", Json::text(sort))
}

/// Only the expected keys. Everything else luau-lsp offers inside a table
/// constructor is the ordinary Luau scope, which is right for Luau and
/// nonsense as an attribute list.
#[test]
fn props_keep_the_expected_keys_and_drop_the_scope() {
    let items = vec![
        offered("Name", 5, Some("string"), "1"),
        offered("OnClick", 3, Some("() -> ()"), "1"),
        offered("print", 3, Some("(T...) -> ()"), "4"),
        offered("Row", 3, None, "3"),
    ];

    let list = props(&items, &nowhere(0), false);
    let labels = labels_of(list.get_array("items").expect("items"));

    assert_eq!(labels, ["Name", "OnClick"]);
}

#[test]
fn a_prop_that_takes_a_function_is_completed_as_one() {
    let items = vec![
        offered("OnClick", 3, Some("() -> ()"), "1"),
        offered("Name", 5, Some("string"), "1"),
    ];

    let list = props(&items, &nowhere(3), true);
    let items = list.get_array("items").expect("items");

    // The parameters are the component's own business — unlike a Roblox
    // event, nothing publishes what a handler is handed — so the body is
    // left empty rather than invented.
    assert_eq!(
        at(&items[0], &["textEdit", "newText"]),
        &Json::text("OnClick={function() $1 end}")
    );
    assert_eq!(items[0].get_u64("insertTextFormat"), Some(2));
    // A value prop takes a value.
    assert_eq!(at(&items[1], &["textEdit", "newText"]), &Json::text("Name"));
    assert!(items[1].get("insertTextFormat").is_none());
}

#[test]
fn a_client_without_snippets_gets_a_plain_prop_name() {
    let items = vec![offered("OnClick", 3, Some("() -> ()"), "1")];

    let list = props(&items, &nowhere(0), false);
    assert_eq!(at(&list, &["items", "0", "textEdit", "newText"]), &Json::text("OnClick"));
}

/// A key that is not a plain name has no markup spelling at all.
#[test]
fn a_key_that_cannot_be_written_as_an_attribute_is_dropped() {
    let items = vec![
        offered("data-x", 5, None, "1"),
        offered("end", 5, None, "1"),
        offered("Name", 5, None, "1"),
    ];

    let list = props(&items, &nowhere(0), false);
    assert_eq!(labels_of(list.get_array("items").expect("items")), ["Name"]);
    assert_eq!(at(&list, &["items", "0", "detail"]), &Json::text("prop"));
}

#[test]
fn members_are_rebuilt_as_tag_names() {
    let items = vec![
        offered("Header", 6, Some("() -> ()"), "9")
            .with("documentation", Json::text("says so")),
        offered("my-thing", 6, None, "9"),
        offered("local", 6, None, "9"),
        offered("Footer", 6, None, "9"),
    ];

    let list = members(&items, &nowhere(2));
    let kept = list.get_array("items").expect("items");
    assert_eq!(labels_of(kept), ["Header", "Footer"]);
    assert_eq!(kept[0].get_u64("kind"), Some(3));
    assert_eq!(kept[0].get_str("documentation"), Some("says so"));
    assert_eq!(kept[1].get_str("detail"), Some("member"));
    assert_eq!(at(&kept[1], &["textEdit", "range"]), &nowhere(2));
}

#[test]
fn a_closing_tag_completes_what_is_open() {
    let completion = complete_tag("local e = <Frame><TextLabel></|", &["Frame", "TextLabel"], "");
    assert_eq!(labels_of(&items(completion)), ["TextLabel"]);
}

#[test]
fn a_closing_tag_with_nothing_open_completes_to_nothing() {
    assert!(matches!(complete_tag("local e = </|", &[], ""), Completion::Nothing));
}

#[test]
fn a_fragment_is_closed_as_one() {
    let items = items(complete_tag("local e = (<></|", &[""], ""));
    assert_eq!(labels_of(&items), ["</>"]);
    assert_eq!(at(&items[0], &["textEdit", "newText"]), &Json::text(">"));
}

#[test]
fn a_closing_tag_does_not_double_the_angle_bracket() {
    let Completion::Ours(list) = complete_tag("local e = <Frame></|>", &["Frame"], "") else {
        panic!("expected our own completions");
    };
    assert_eq!(at(&list, &["items", "0", "textEdit", "newText"]), &Json::text("Frame"));

    let Completion::Ours(list) = complete_tag("local e = <Frame></|", &["Frame"], "") else {
        panic!("expected our own completions");
    };
    assert_eq!(at(&list, &["items", "0", "textEdit", "newText"]), &Json::text("Frame>"));
}

#[test]
fn expressions_and_plain_luau_are_forwarded() {
    assert!(matches!(
        complete_in("local e = <Frame Size={si|", Context::Expression),
        Completion::Forward
    ));
    assert!(matches!(complete_in("local x = str|", Context::Luau), Completion::Forward));
}

#[test]
fn text_and_attribute_strings_offer_nothing() {
    // Forwarding here would have luau-lsp suggest Luau symbols inside prose.
    assert!(matches!(
        complete_in("local e = <TextLabel>He|</TextLabel>", Context::Text),
        Completion::Nothing
    ));
    assert!(matches!(
        complete_in("local e = <Frame Name=\"a|\"/>", Context::AttributeValue),
        Completion::Nothing
    ));
}

#[test]
fn the_edit_replaces_the_partial_name() {
    let Completion::Ours(list) = complete_tag("local e = <Fra|", &[], "") else {
        panic!("expected our own completions");
    };

    let edit = at(&list, &["items", "0", "textEdit", "range"]);
    assert_eq!(at(edit, &["start", "character"]), &Json::number(11));
    assert_eq!(at(edit, &["end", "character"]), &Json::number(14));
}
