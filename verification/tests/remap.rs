use luaux::config::Config;
use luaux_lsp::json::Json;
use luaux_lsp::line_index::LineIndex;
use luaux_lsp::map_builder;
use luaux_lsp::remap::{Direction, Remap, Spellings};
use luaux_lsp::sourcemap::SourceMap;

struct Fixture {
    source: String,
    output: String,
    map: SourceMap,
    source_index: LineIndex,
    output_index: LineIndex,
    spellings: Spellings,
}

fn fixture(source: &str) -> Fixture {
    let config = Config::with_create("create");
    let (output, _) =
        luaux::compile::compile_configured(source, &luaux::backend::Vide, config.clone())
            .expect("compile");
    let map = map_builder::build(source, &output, &config);

    Fixture {
        source_index: LineIndex::new(source),
        output_index: LineIndex::new(&output),
        source: source.to_string(),
        map,
        output,
        spellings: Spellings {
            source: vec!["file:///src/App.luaux".to_string()],
            output: vec!["file:///build/App.luau".to_string()],
        },
    }
}

impl Fixture {
    fn remap(&self, direction: Direction) -> Remap<'_> {
        Remap {
            map: &self.map,
            source: &self.source,
            output: &self.output,
            source_index: &self.source_index,
            output_index: &self.output_index,
            source_uri: "file:///src/App.luaux",
            output_uri: "file:///build/App.luau",
            spellings: &self.spellings,
            direction,
            dropped: false,
        }
    }
}

const SOURCE: &str = "local create = f()\nlocal e = <Frame Size={size}/>\n";

fn position(line: u64, character: u64) -> Json {
    Json::object().with("line", Json::number(line)).with("character", Json::number(character))
}

fn range(start: Json, end: Json) -> Json {
    Json::object().with("start", start).with("end", end)
}

#[test]
fn a_position_in_an_expression_goes_down_and_comes_back() {
    let fixture = fixture(SOURCE);
    // `size`, inside the hole.
    let down = fixture
        .remap(Direction::Down)
        .message(&Json::object().with("position", position(1, 23)))
        .expect("mapped");
    assert_ne!(down.get("position"), Some(&position(1, 23)));

    let up = fixture.remap(Direction::Up).message(&down).expect("mapped back");

    assert_eq!(up.get("position"), Some(&position(1, 23)));
}

#[test]
fn the_uri_swaps_with_the_direction() {
    let fixture = fixture(SOURCE);

    let down = fixture
        .remap(Direction::Down)
        .message(&Json::object().with(
            "textDocument",
            Json::object().with("uri", Json::text("file:///src/App.luaux")),
        ))
        .expect("mapped");
    assert_eq!(
        down.get("textDocument").and_then(|document| document.get_str("uri")),
        Some("file:///build/App.luau")
    );

    let up = fixture
        .remap(Direction::Up)
        .message(&Json::object().with("uri", Json::text("file:///build/App.luau")))
        .expect("mapped");
    assert_eq!(up.get_str("uri"), Some("file:///src/App.luaux"));
}

#[test]
fn a_position_in_generated_text_is_refused_rather_than_moved() {
    let fixture = fixture(SOURCE);
    // Column 10 of the output line is inside `create("Frame")(`.
    let mut remap = fixture.remap(Direction::Up);

    assert_eq!(remap.message(&Json::object().with("position", position(1, 12))), None);
    assert!(remap.dropped);
}

#[test]
fn remap_a_range_straddling_generated_text_is_refused() {
    let fixture = fixture(SOURCE);
    let mut remap = fixture.remap(Direction::Down);

    // From `local` on line 1 to inside the hole: crosses `create("Frame")({`.
    let straddling = Json::object().with("range", range(position(1, 0), position(1, 26)));
    assert_eq!(remap.message(&straddling), None);
}

#[test]
fn locations_in_other_files_pass_through_untouched() {
    let fixture = fixture(SOURCE);
    let elsewhere = Json::object()
        .with("uri", Json::text("file:///other/Thing.luau"))
        .with("range", range(position(400, 3), position(400, 9)));

    let mapped = fixture.remap(Direction::Up).message(&elsewhere).expect("passed through");
    assert_eq!(mapped, elsewhere);
}

#[test]
fn an_unmappable_item_in_a_list_is_dropped_and_the_rest_survive() {
    let fixture = fixture(SOURCE);
    let mut remap = fixture.remap(Direction::Up);

    // The generated `create(` has no source; the captured `size` does.
    let line = fixture.output_index.line_start(1);
    let expression = (fixture.output.rfind("size").expect("expression") - line) as u64;

    let list = Json::Array(vec![
        Json::object().with("range", range(position(1, 12), position(1, 18))),
        Json::object()
            .with("range", range(position(1, expression), position(1, expression + 4))),
    ]);

    let mapped = remap.message(&list).expect("a list");
    assert_eq!(mapped.as_array().expect("array").len(), 1);
    assert!(remap.dropped, "the caller has to be able to tell");
}

#[test]
fn unknown_fields_are_carried_through() {
    // The whole point of walking generically: luau-lsp may send anything.
    let fixture = fixture(SOURCE);
    let numbers = || Json::Array(vec![Json::number(1), Json::number(2), Json::number(3)]);
    let message = Json::object()
        .with("contents", Json::text("hi"))
        .with("somethingNew", Json::object().with("nested", numbers()));

    let mapped = fixture.remap(Direction::Up).message(&message).expect("mapped");
    assert_eq!(mapped.get("somethingNew").and_then(|new| new.get("nested")), Some(&numbers()));
}

#[test]
fn a_line_outside_any_region_maps_identically() {
    let fixture = fixture("local x = 1\nlocal y = 2\n");
    let at = Json::object().with("position", position(1, 6));

    let down = fixture.remap(Direction::Down).message(&at).expect("mapped");
    assert_eq!(down, at);
}

#[test]
fn a_foreign_message_keeps_its_positions() {
    let fixture = fixture(SOURCE);
    let mut remap = fixture.remap(Direction::Up);
    let at = Json::object().with("position", position(1, 12));
    assert_eq!(remap.foreign_message(&at), Some(at));
    assert!(!remap.dropped);
}

#[test]
fn what_crosses_keeps_its_fields_by_key() {
    let fixture = fixture(SOURCE);
    let message = Json::object()
        .with("zeta", Json::text("kept"))
        .with("position", position(1, 23))
        .with("alpha", Json::Null);
    match fixture.remap(Direction::Down).message(&message).expect("mapped") {
        Json::Object(fields) => {
            let keys: Vec<&str> = fields.iter().map(|field| field.key.as_str()).collect();
            assert_eq!(keys, ["alpha", "position", "zeta"]);
        }
        other => panic!("{other:?}"),
    }
}
