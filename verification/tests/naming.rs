use luaux::config::Config;
use luaux::roblox;
use luaux_lsp::naming::{Named, Vocabulary};
use luaux_lsp::resolving::read_attribute;

fn config(text: &str) -> Config {
    Config::parse(&format!("[factory]\ncreate = \"create\"\n\n{text}")).expect("config")
}

fn written_element(config: &Config, class: &str) -> String {
    Vocabulary::new(config).element(class)
}

#[test]
fn without_a_scheme_a_class_is_spelled_as_roblox_spells_it() {
    let config = config("");
    assert_eq!(written_element(&config, "TextLabel"), "TextLabel");
    assert_eq!(written_element(&config, "UICorner"), "UICorner");
}

#[test]
fn a_scheme_renames_every_class() {
    let config = config("[elements]\nall = \"camelCase\"\n");
    assert_eq!(written_element(&config, "TextLabel"), "textLabel");
    // Word boundaries come from the canonical spelling, so `UI` stays whole.
    assert_eq!(written_element(&config, "UICorner"), "uiCorner");

    let snake = config_snake();
    assert_eq!(written_element(&snake, "UICorner"), "ui_corner");
}

fn config_snake() -> Config {
    config("[elements]\nall = \"snake_case\"\n")
}

#[test]
fn an_explicit_entry_beats_the_scheme() {
    let config = config("[elements]\nall = \"camelCase\"\nTextLabel = \"text\"\n");
    assert_eq!(written_element(&config, "TextLabel"), "text");
    // And the rest of the project still follows the scheme.
    assert_eq!(written_element(&config, "UICorner"), "uiCorner");
}

/// A class can opt back out of a blanket rename by naming itself, and then
/// the canonical spelling is the one that works.
#[test]
fn an_identity_entry_opts_a_class_out_of_the_scheme() {
    let config = config("[elements]\nall = \"camelCase\"\nTextLabel = \"TextLabel\"\n");
    assert_eq!(written_element(&config, "TextLabel"), "TextLabel");
    assert_eq!(written_element(&config, "UICorner"), "uiCorner");
}

/// Whether the compiler accepts `written` as this class.
///
/// `Ok(None)` is not a failure: it is the compiler saying "not an alias,
/// resolve normally", which is the right answer for a class no rename
/// touched. Only a name that resolves *elsewhere*, or is retired, is wrong.
fn accepted(config: &Config, named: &Named) -> bool {
    match config.resolve_element(&named.written) {
        Ok(Some(class)) => class == named.canonical,
        Ok(None) => named.written == named.canonical && roblox::is_class(&named.written),
        Err(_) => false,
    }
}

/// The property worth asserting: every name offered is one the compiler then
/// accepts.
#[test]
fn every_element_offered_round_trips() {
    for scheme in ["", "PascalCase", "camelCase", "snake_case", "flatcase"] {
        let config = match scheme.is_empty() {
            true => config(""),
            false => config(&format!("[elements]\nall = \"{scheme}\"\n")),
        };

        let vocabulary = Vocabulary::new(&config);
        let elements = vocabulary.elements();
        assert!(elements.len() > 300, "{scheme}: {} elements", elements.len());

        for named in elements {
            assert!(accepted(&config, named), "{scheme}: {named:?} is not accepted");
        }
    }
}

#[test]
fn every_member_offered_round_trips() {
    for scheme in ["", "camelCase", "snake_case", "flatcase"] {
        let config = match scheme.is_empty() {
            true => config(""),
            false => config(&format!("[properties]\nall = \"{scheme}\"\n")),
        };

        let vocabulary = Vocabulary::new(&config);

        for class in ["Frame", "TextLabel", "TextButton", "UICorner"] {
            let members = vocabulary.members(&config, class);
            // Even the smallest of these inherits `Instance`, so a class
            // that came back nearly empty means the filter ate the list.
            assert!(members.len() > 15, "{scheme} {class}: {} members", members.len());

            for named in &members {
                assert_eq!(
                    config.resolve_property(class, &named.written).as_deref(),
                    Ok(named.canonical),
                    "{scheme} {class}: {named:?} is not what the compiler resolves",
                );
            }
        }
    }
}

/// `ChildAdded` and `childAdded` both live on `Instance` and collapse onto
/// one spelling under any scheme. Offering both would show two identical
/// entries meaning different things.
#[test]
fn a_collision_is_offered_once_and_resolves_to_the_modern_name() {
    let config = config("[properties]\nall = \"snake_case\"\n");
    let members = Vocabulary::new(&config).members(&config, "Frame");

    let collided: Vec<&Named> =
        members.iter().filter(|named| named.written == "child_added").collect();

    assert_eq!(collided.len(), 1, "{collided:?}");
    assert_eq!(collided[0].canonical, "ChildAdded");
    assert!(roblox::is_deprecated("childAdded"));
}

#[test]
fn no_two_members_share_a_spelling() {
    let config = config("[properties]\nall = \"flatcase\"\n");
    let members = Vocabulary::new(&config).members(&config, "TextButton");

    let mut seen = std::collections::HashSet::new();
    for named in &members {
        assert!(seen.insert(named.written.clone()), "{} offered twice", named.written);
    }
}

#[test]
fn a_property_alias_still_beats_the_scheme() {
    let config = config(
        "[properties]\nall = \"snake_case\"\n\n[properties.Frame]\nBackgroundColor3 = \"bg\"\n",
    );
    let members = Vocabulary::new(&config).members(&config, "Frame");

    let names: Vec<&str> = members.iter().map(|named| named.written.as_str()).collect();
    assert!(names.contains(&"bg"), "the alias is missing");
    assert!(!names.contains(&"background_color3"), "the scheme's form is still offered");
    // And an unclaimed property still follows the scheme.
    assert!(names.contains(&"background_transparency"), "{names:?}");
}

#[test]
fn a_member_is_looked_up_by_what_roblox_calls_it() {
    let config = config("[properties]\nall = \"camelCase\"\n");
    let vocabulary = Vocabulary::new(&config);
    assert_eq!(vocabulary.member(&config, "Frame", "BackgroundColor3"), "backgroundColor3");
    // One that the class does not have is shown as it is.
    assert_eq!(vocabulary.member(&config, "Frame", "Nonsense"), "Nonsense");
    assert_eq!(vocabulary.element("Nonsense"), "Nonsense");
}

#[test]
fn an_attribute_offered_is_read_as_its_member() {
    for text in [
        "",
        "[properties]\nText = \"label\"\n",
        "[properties]\nall = \"camelCase\"\nText = \"label\"\n",
    ] {
        let config = config(text);
        let vocabulary = Vocabulary::new(&config);
        for named in vocabulary.members(&config, "TextLabel") {
            assert_eq!(
                read_attribute(&config, "TextLabel", &named.written).as_deref(),
                Some(&*named.canonical),
                "{text}: {named:?}",
            );
        }
    }

    let renamed = config("[properties]\nText = \"label\"\n");
    assert_eq!(read_attribute(&renamed, "TextLabel", "label"), Some("Text".to_string()));
    assert_eq!(read_attribute(&renamed, "TextLabel", "Text"), None);
    assert_eq!(read_attribute(&renamed, "TextLabel", "Nonsense"), Some("Nonsense".to_string()));
}

#[test]
fn a_class_is_shown_in_a_spelling_that_is_accepted() {
    for scheme in ["PascalCase", "camelCase", "snake_case"] {
        let config = config(&format!("[elements]\nall = \"{scheme}\"\nTextLabel = \"words\"\n"));
        let vocabulary = Vocabulary::new(&config);
        for named in vocabulary.elements() {
            let shown = Named {
                written: vocabulary.element(named.canonical),
                canonical: named.canonical,
            };
            assert!(accepted(&config, &shown), "{scheme}: {shown:?} is not accepted");
        }
        assert_eq!(vocabulary.element("TextLabel"), "words");
    }
}
