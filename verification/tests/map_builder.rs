use luaux::backend::Vide;
use luaux::config::Config;
use luaux_lsp::map_builder::build;
use luaux_lsp::sourcemap::SourceMap;

/// Compiles like the CLI does, then maps the pair.
fn compiled(source: &str) -> (String, SourceMap, Config) {
    let config = Config::with_create("create");
    let (output, _) = luaux::compile::compile_configured(source, &Vide, config.clone())
        .unwrap_or_else(|error| panic!("compile {source:?}: {error}"));
    let map = build(source, &output, &config);
    (output, map, config)
}

/// `to_source(to_output(n)) == n` over every run — the invariant every
/// forwarded feature depends on. And that a run really is the same text on
/// both sides, which is what makes the position mean anything once it gets
/// there.
fn assert_round_trips(source: &str, output: &str, map: &SourceMap) {
    for run in map.runs() {
        for step in 0..run.length {
            let offset = run.source + step;
            let to = map
                .to_output(offset)
                .unwrap_or_else(|| panic!("{offset} in a run did not map"));
            assert_eq!(map.to_source(to), Some(offset), "round trip at {offset}");
        }

        assert_eq!(
            &source[run.source..run.source + run.length],
            &output[run.output..run.output + run.length],
            "run at {} is not verbatim",
            run.source,
        );
    }
}

/// Offset of `needle` in the source, mapped, then read back out of the output.
fn maps_to<'a>(source: &str, output: &'a str, map: &SourceMap, needle: &str) -> Option<&'a str> {
    let at = source.find(needle)?;
    let to = map.to_output(at)?;
    output.get(to..to + needle.len())
}

const FIXTURES: &[&str] = &[
    "local create = f()\nlocal e = <Frame/>\n",
    "local create = f()\nlocal e = <Frame Size={size} Name='a' Visible />\n",
    "local create = f()\nlocal e = <TextLabel>Clicked {count} times</TextLabel>\n",
    "local create = f()\nlocal e = <TextButton>{label}</TextButton>\n",
    "local create = f()\nlocal e = <Frame>{cond and child or nil}</Frame>\n",
    "local create = f()\nlocal e = <Frame {props} Name={n} />\n",
    "local create = f()\nlocal e = (\n  <Frame\n    Size={size}\n    Visible\n  >\n    <TextLabel>Hi</TextLabel>\n  </Frame>\n)\n",
    "local create = f()\nlocal Row = f()\nlocal e = <Frame>{cond and <Row Name={n}/> or nil}</Frame>\n",
    "local create = f()\nlocal e = (\n  <TextButton\n    Activated={function()\n      count(count() + 1)\n    end}\n  />\n)\n",
    "--!strict\nlocal create = f()\nlocal p = {}\nlocal e = <Frame {p} Name={n} />\n",
];

#[test]
fn every_run_round_trips() {
    for fixture in FIXTURES {
        let (output, map, _) = compiled(fixture);
        assert_round_trips(fixture, &output, &map);
    }
}

#[test]
fn untouched_source_maps_identically() {
    let source = "local x = 1\nlocal y = 2\n";
    let (output, map, _) = compiled(source);
    assert_eq!(output, source);
    assert_eq!(map.to_output(0), Some(0));
    assert_eq!(map.to_output(source.len() - 1), Some(source.len() - 1));
}

#[test]
fn captured_expressions_are_mapped() {
    let source = "local create = f()\nlocal e = <Frame Size={size}/>\n";
    let (output, map, _) = compiled(source);
    assert_eq!(maps_to(source, &output, &map, "size"), Some("size"));
}

#[test]
fn code_after_a_region_maps_back() {
    let source = "local create = f()\nlocal e = <Frame/>\nlocal after = 1\n";
    let (output, map, _) = compiled(source);
    assert_eq!(maps_to(source, &output, &map, "after"), Some("after"));
}

#[test]
fn generated_text_maps_to_nothing_in_either_direction() {
    let source = "local create = f()\nlocal e = <Frame Size={size}/>\n";
    let (output, map, _) = compiled(source);

    // `create("Frame")({ Size = ` is ours, not the author's.
    let generated = output.find("create(\"Frame\")").expect("generated");
    assert_eq!(map.to_source(generated), None);
    // And the tag itself has no counterpart in the output.
    assert_eq!(map.to_output(source.find("<Frame").expect("tag")), None);
}

#[test]
fn the_injected_preamble_shifts_its_line_and_no_other() {
    // A spread pulls in the merge helper, which lands on the first statement.
    let source =
        "local create = f()\nlocal p = {}\nlocal e = <Frame {p} Name={n} />\nlocal tail = 1\n";
    let (output, map, _) = compiled(source);
    assert!(output.contains("__luaux_merge"), "{output}");

    // Line 0 shifted right by the preamble...
    let first = map.to_output(0).expect("start of file maps");
    assert!(first > 0, "the preamble should have shifted line 0");
    // ...and a later line did not.
    let tail = source.find("tail").expect("tail");
    assert_eq!(maps_to(source, &output, &map, "tail"), Some("tail"));
    assert_eq!(map.to_output(tail), output.find("tail"));
}

#[test]
fn interpolated_text_maps_each_expression() {
    let source = "local create = f()\nlocal e = <TextLabel>Clicked {count} times</TextLabel>\n";
    let (output, map, _) = compiled(source);
    assert_eq!(maps_to(source, &output, &map, "count"), Some("count"));
}

#[test]
fn luaux_nested_in_an_expression_maps_its_own_attributes() {
    let source =
        "local create = f()\nlocal Row = f()\nlocal e = <Frame>{cond and <Row Name={n}/> or nil}</Frame>\n";
    let (output, map, _) = compiled(source);

    assert_eq!(maps_to(source, &output, &map, "cond and "), Some("cond and "));
    assert_eq!(maps_to(source, &output, &map, " or nil"), Some(" or nil"));
    // The nested element's own attribute expression, inside a compiled region.
    let n = source.find("{n}").expect("attribute") + 1;
    let to = map.to_output(n).expect("attribute expression maps");
    assert_eq!(&output[to..to + 1], "n");
}

#[test]
fn multi_line_expressions_map_across_lines() {
    let source = "local create = f()\nlocal e = (\n  <TextButton\n    Activated={function()\n      count(count() + 1)\n    end}\n  />\n)\n";
    let (output, map, _) = compiled(source);
    assert_eq!(
        maps_to(source, &output, &map, "count(count() + 1)"),
        Some("count(count() + 1)")
    );
}

/// A whole realistic file — several regions, a fragment, markup and hole
/// comments, a component, interpolated text, and LuauX nested two deep
/// inside a captured function.
///
/// Coverage is what this is about: the unit fixtures each check one shape,
/// and a real file is where the shapes interact.
const REALISTIC: &str = r#"local vide = require("@pkg/vide")
local create, source = vide.create, vide.source

local function Button(props)
  return (
    <TextButton
      Size={UDim2.fromOffset(160, 40)}
      Activated={props.OnClick}
      Text={props.Label}
    >
      <UICorner CornerRadius={UDim.new(0, 8)} />
    </TextButton>
  )
end

return function()
  local count = source(0)

  return (
    <Frame Size={UDim2.fromScale(1, 1)} BackgroundTransparency={1}>
      <!-- Interpolated text is reactive. -->
      <TextLabel>Clicked {count} times</TextLabel>
      {--[[ a comment in a hole ]]}

      <Button Label="Click me" OnClick={function() count(count() + 1) end} />

      {function()
        return count() > 4 and (<TextLabel>that is a lot</TextLabel>) or nil
      end}
    </Frame>
  )
end
"#;

#[test]
fn a_realistic_file_maps_every_captured_expression() {
    let (output, map, _) = compiled(REALISTIC);
    assert_round_trips(REALISTIC, &output, &map);

    for expression in [
        "UDim2.fromOffset(160, 40)",
        "props.OnClick",
        "props.Label",
        "UDim.new(0, 8)",
        "UDim2.fromScale(1, 1)",
        "\"Click me\"",
        "function() count(count() + 1) end",
        // Inside the conditional child, which is itself inside a hole.
        "count() > 4",
    ] {
        let at = REALISTIC.find(expression).unwrap_or_else(|| panic!("{expression} in fixture"));
        let to = map.to_output(at).unwrap_or_else(|| panic!("{expression} did not map"));

        assert_eq!(&output[to..to + expression.len()], expression);
    }
}

#[test]
fn an_attribute_name_maps_when_no_alias_renamed_it() {
    let source = "local create = f()\nlocal e = <Frame Visible={v} Name='a'/>\n";
    let (output, map, _) = compiled(source);
    assert_round_trips(source, &output, &map);

    // Without this, hover, references and go-to-definition on an attribute
    // name have nowhere to go.
    for name in ["Visible", "Name"] {
        let at = source.find(name).expect("attribute");
        let to = map.to_output(at).unwrap_or_else(|| panic!("{name} did not map"));
        assert_eq!(&output[to..to + name.len()], name);
    }
}

#[test]
fn an_aliased_attribute_name_maps_to_nothing() {
    // `bgColor` is nowhere in the output — it compiled to
    // `BackgroundColor3` — so there is no position to forward to, and
    // pointing at the canonical name would be pointing at text the author
    // never wrote.
    let source = "local create = f()\nlocal e = <Frame bgColor={c}/>\n";
    let config =
        Config::parse("[factory]\ncreate = \"create\"\n\n[properties.Frame]\nBackgroundColor3 = \"bgColor\"\n")
            .expect("config");
    let (output, _) =
        luaux::compile::compile_configured(source, &Vide, config.clone()).expect("compile");
    let map = build(source, &output, &config);

    assert_round_trips(source, &output, &map);
    assert_eq!(map.to_output(source.find("bgColor").expect("attribute")), None);
    // The value beside it still maps, so the expression is not lost with it.
    let value = source.find("{c}").expect("value") + 1;
    assert!(map.to_output(value).is_some());
}

/// A component tag is emitted as the call it becomes, so its name maps and
/// luau-lsp can be asked about it. An intrinsic's is not: `<Frame/>` emits
/// `create("Frame")`, where the same text means a string literal.
#[test]
fn a_component_tag_name_maps_and_a_class_tag_name_does_not() {
    let source = "local create = f()\nlocal Row = f()\nlocal e = <Row/>\n";
    let (output, map, _) = compiled(source);
    assert_round_trips(source, &output, &map);

    let at = source.rfind("Row").expect("tag");
    let to = map.to_output(at).expect("the component name maps");
    assert_eq!(&output[to..to + 3], "Row");

    // The class name appears in the output only inside a string.
    let class = "local create = f()\nlocal e = <Frame/>\n";
    let (_, map, _) = compiled(class);
    assert_eq!(map.to_output(class.find("Frame").expect("tag")), None);
}

/// The name is searched for as `Row(`, so one that also occurs inside the
/// enclosing class's own string literal is still found.
#[test]
fn a_component_named_inside_its_parents_class_still_maps() {
    let source =
        "local create = f()\nlocal Label = f()\nlocal e = <TextLabel><Label/></TextLabel>\n";
    let (output, map, _) = compiled(source);
    assert_round_trips(source, &output, &map);

    let at = source.find("<Label/>").expect("tag") + 1;
    let to = map.to_output(at).expect("the component name maps");
    assert_eq!(&output[to..to + 5], "Label");
}

/// Two of the same component in one region cannot be told apart by a search,
/// and the answer to that is *no run* — coverage, never a wrong position.
/// Recorded so the limit is a decision rather than a surprise.
#[test]
fn two_sibling_components_of_one_name_map_to_nothing() {
    let source = "local create = f()\nlocal Row = f()\nlocal e = <Frame><Row/><Row/></Frame>\n";
    let (output, map, _) = compiled(source);
    assert_round_trips(source, &output, &map);

    let first = source.find("<Row/>").expect("tag") + 1;
    assert_eq!(map.to_output(first), None);
}

/// `< Row/>` parses, so the name is not at `span.start + 1`. The run has to
/// land on the name the author wrote or not exist at all.
#[test]
fn whitespace_after_the_open_angle_does_not_shift_the_run() {
    let source = "local create = f()\nlocal Row = f()\nlocal e = < Row/>\n";
    let (output, map, _) = compiled(source);
    assert_round_trips(source, &output, &map);

    let at = source.find("Row/>").expect("tag");
    let to = map.to_output(at).expect("the component name maps");
    assert_eq!(&output[to..to + 3], "Row");
}

#[test]
fn a_mismatched_line_count_yields_an_empty_map() {
    // Nothing here claims these two correspond, and the builder must not
    // pretend otherwise.
    let map = build("local a = 1\n", "local a = 1\nlocal b = 2\n", &Config::default());
    assert!(map.is_empty());
}

#[test]
fn two_regions_on_one_line_both_map() {
    let source = "local create = f()\nlocal a, b = <Frame Name={x}/>, <Frame Name={y}/>\n";
    let (output, map, _) = compiled(source);
    assert_round_trips(source, &output, &map);

    for name in ["{x}", "{y}"] {
        let at = source.find(name).expect("attribute") + 1;
        let to = map.to_output(at).expect("attribute expression maps");
        assert_eq!(&output[to..to + 1], &name[1..2]);
    }
}
