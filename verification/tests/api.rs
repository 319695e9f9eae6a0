use luaux_lsp::api::{
    parse_definitions, split_top_level, Api, Documentation, Documented, Member,
};

const DEFINITIONS: &str = "\
declare extern type Instance with
\tName: string
\tChanged: RBXScriptSignal<string>
end

declare extern type GuiBase2d extends Instance with
\tAutoLocalize: boolean
end

declare extern type GuiObject extends GuiBase2d with
\tBackgroundColor3: Color3
\tMouseEnter: RBXScriptSignal<(number, number)>
\tInputBegan: RBXScriptSignal<InputObject>
\tSelectionChanged: RBXScriptSignal<(boolean, GuiObject, GuiObject)>
\tActivatedNothing: RBXScriptSignal<()>
end

declare extern type TextLabel extends GuiObject with
\tText: string
end
";

fn api() -> Api {
    Api { classes: parse_definitions(DEFINITIONS), docs: Vec::new() }
}

#[test]
fn a_members_type_comes_from_wherever_it_is_declared() {
    let api = api();

    let text = api.member("TextLabel", "Text").expect("Text");
    assert_eq!((text.declared_by.as_str(), text.luau_type.as_str()), ("TextLabel", "string"));

    // Three classes up, which is where the useful ones usually live.
    let mouse = api.member("TextLabel", "MouseEnter").expect("MouseEnter");
    assert_eq!(mouse.declared_by, "GuiObject");
    assert_eq!(mouse.luau_type, "RBXScriptSignal<(number, number)>");

    // All the way to the root.
    assert_eq!(api.member("TextLabel", "Name").expect("Name").declared_by, "Instance");
}

#[test]
fn an_unknown_member_or_class_has_no_type() {
    let api = api();
    assert_eq!(api.member("TextLabel", "Nonsense"), None);
    assert_eq!(api.member("NotAClass", "Text"), None);
}

#[test]
fn an_events_parameters_are_recovered_from_its_signal_type() {
    let api = api();
    let parameters =
        |class: &str, member: &str| api.member(class, member).expect(member).event_parameters();

    assert_eq!(
        parameters("TextLabel", "MouseEnter"),
        Some(vec!["number".to_string(), "number".to_string()])
    );
    // A single parameter is written without the parentheses.
    assert_eq!(parameters("TextLabel", "InputBegan"), Some(vec!["InputObject".to_string()]));
    assert_eq!(parameters("TextLabel", "ActivatedNothing"), Some(vec![]));
    // A property is not an event.
    assert_eq!(parameters("TextLabel", "Text"), None);
}

#[test]
fn nested_generics_do_not_split_on_their_own_commas() {
    assert_eq!(split_top_level("number, number"), ["number", "number"]);
    assert_eq!(
        split_top_level("Map<string, number>, boolean"),
        ["Map<string, number>", "boolean"]
    );
    assert_eq!(split_top_level("(a, b) -> c, d"), ["(a, b) -> c", "d"]);
}

#[test]
fn the_older_header_spelling_still_parses() {
    let classes =
        parse_definitions("declare class Frame extends GuiObject\n\tVisible: boolean\nend\n");
    let frame = classes.get("Frame").expect("Frame");
    assert_eq!(frame.extends.as_deref(), Some("GuiObject"));
    assert_eq!(frame.get("Visible").map(String::as_str), Some("boolean"));
}

#[test]
fn methods_and_oddities_are_skipped_rather_than_guessed_at() {
    let classes = parse_definitions(
        "declare extern type X with\n\tFindFirstChild: (self: X, name: string) -> Instance?\n\t[\"Odd Name\"]: number\n\tPlain: number\nend\n",
    );
    let x = classes.get("X").expect("X");

    // A method has a type like anything else, and reads fine.
    assert_eq!(
        x.get("FindFirstChild").map(String::as_str),
        Some("(self: X, name: string) -> Instance?")
    );
    // A bracketed key is not an attribute anyone can write in LuauX.
    assert!(x.get("[\"Odd Name\"]").is_none());
    assert_eq!(x.get("Plain").map(String::as_str), Some("number"));
}

#[test]
fn documentation_is_keyed_by_the_declaring_class() {
    let api = Api {
        classes: parse_definitions(DEFINITIONS),
        docs: vec![Documented {
            key: "@roblox/globaltype/GuiObject.MouseEnter".to_string(),
            says: Documentation {
                documentation: "Fires when a user moves their mouse in.".into(),
                learn_more_link: "https://example.invalid".into(),
            },
        }],
    };

    let member = api.member("TextLabel", "MouseEnter").expect("MouseEnter");
    let docs = api.documentation(&member.declared_by, "MouseEnter").expect("docs");
    assert!(docs.documentation.contains("moves their mouse"));
    assert!(api.documentation("TextLabel", "MouseEnter").is_none());
}

#[test]
fn a_class_that_extends_itself_is_not_walked_for_ever() {
    let api = Api::new(
        "declare class A extends B\n\tOne: number\nend\ndeclare class B extends A\nend\n",
        Vec::new(),
    );
    assert_eq!(api.member("B", "One").map(|member| member.declared_by), Some("A".to_string()));
    assert_eq!(api.member("B", "Two"), None);
}

#[test]
fn the_older_pack_spelling_gives_the_same_parameters() {
    let member = |luau_type: &str| Member {
        declared_by: "GuiObject".to_string(),
        luau_type: luau_type.to_string(),
    };
    assert_eq!(
        member("RBXScriptSignal<number, number>").event_parameters(),
        Some(vec!["number".to_string(), "number".to_string()])
    );
    assert_eq!(member("RBXScriptSignal").event_parameters(), None);
}

#[test]
fn the_later_of_two_declarations_stands() {
    let api = Api::new("declare class A\n\tOne: number\n\tOne: string\nend\n", Vec::new());
    assert_eq!(api.member("A", "One").map(|member| member.luau_type), Some("string".to_string()));
}

#[test]
fn definitions_with_no_class_are_empty() {
    assert!(Api::new("type X = number\n", Vec::new()).is_empty());
    assert!(!api().is_empty());
}

#[test]
fn parts_are_trimmed_and_split_again() {
    for list in ["a, b", " Map<string, number> ,, boolean ,", "", "(a, b) -> c ,\td"] {
        let parts = split_top_level(list);
        for part in &parts {
            assert!(!part.is_empty() && part.trim() == part, "{part:?}");
        }
        assert_eq!(split_top_level(&parts.join(", ")), parts);
    }
}

#[test]
fn both_spellings_of_an_event_name_the_same_parameters() {
    let parameters = |luau_type: String| {
        Member { declared_by: "X".into(), luau_type }.event_parameters()
    };
    for list in ["number", "number, number", "", " Map<string, number> , boolean"] {
        let wrapped = parameters(format!("RBXScriptSignal<({list})>"));
        assert_eq!(wrapped, parameters(format!("RBXScriptSignal<{list}>")), "{list}");
        assert_eq!(wrapped, Some(split_top_level(list)));
    }
}
