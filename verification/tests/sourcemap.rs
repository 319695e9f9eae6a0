use luaux_lsp::sourcemap::{Run, SourceMap};

/// A map over two strings that really do share the runs described.
fn map(source: &str, output: &str, runs: &[(usize, usize, usize)]) -> SourceMap {
    let mut map = SourceMap::default();
    for (s, o, length) in runs.iter().copied() {
        assert!(
            map.push(source, output, Run { source: s, output: o, length }),
            "run ({s}, {o}, {length}) was rejected"
        );
    }
    map
}

const SOURCE: &str = "local e = <Frame Size={size}/>";
const OUTPUT: &str = "local e = create(\"Frame\")({ Size = size })";

fn sample() -> SourceMap {
    // The prefix, and the captured expression.
    map(
        SOURCE,
        OUTPUT,
        &[(0, 0, 10), (SOURCE.find("size}").unwrap(), OUTPUT.rfind("size").unwrap(), 4)],
    )
}

/// The invariant: every offset inside a run round-trips.
#[test]
fn every_offset_in_a_run_round_trips() {
    let map = sample();

    for run in map.runs() {
        for step in 0..run.length {
            let offset = run.source + step;
            let output = map.to_output(offset).expect("mapped");
            assert_eq!(map.to_source(output), Some(offset));
        }
    }
}

#[test]
fn generated_text_maps_to_nothing() {
    let map = sample();
    // `create("Frame")({ ` exists only in the output.
    assert_eq!(map.to_source(OUTPUT.find("create").unwrap()), None);
    assert_eq!(map.to_source(OUTPUT.find("Size = ").unwrap()), None);
    // `<Frame Size={` exists only in the source.
    assert_eq!(map.to_output(SOURCE.find("<Frame").unwrap()), None);
}

#[test]
fn a_run_is_refused_unless_both_sides_agree() {
    let mut map = SourceMap::default();
    // Points at `local` in the source but `creat` in the output.
    assert!(!map.push(SOURCE, OUTPUT, Run { source: 0, output: 11, length: 5 }));
    assert!(map.is_empty());
}

#[test]
fn runs_may_not_go_backwards() {
    let mut map = SourceMap::default();
    assert!(map.push(SOURCE, OUTPUT, Run { source: 0, output: 0, length: 10 }));
    // Overlaps the run already recorded.
    assert!(!map.push(SOURCE, OUTPUT, Run { source: 2, output: 2, length: 3 }));
    assert_eq!(map.runs().len(), 1);
}

#[test]
fn an_empty_run_is_not_a_run() {
    let mut map = SourceMap::default();
    assert!(!map.push(SOURCE, OUTPUT, Run { source: 0, output: 0, length: 0 }));
}

#[test]
fn the_end_of_a_run_maps_only_as_an_end() {
    let map = sample();
    let end = 10; // one past the last byte of the `local e = ` run

    assert_eq!(map.to_output(end), None);
    assert_eq!(map.to_output_end(end), Some(10));
}

#[test]
fn sourcemap_a_range_straddling_generated_text_is_refused() {
    let map = sample();
    let size = SOURCE.find("size}").unwrap();

    // Inside one run: fine.
    assert!(map.to_output_range(size, size + 4).is_some());
    // From the prefix into the expression: crosses `create("Frame")({ Size = `.
    assert_eq!(map.to_output_range(0, size + 4), None);
}

#[test]
fn an_empty_map_maps_nothing() {
    let map = SourceMap::default();
    assert_eq!(map.to_output(0), None);
    assert_eq!(map.to_source(0), None);
    assert_eq!(map.to_output_end(0), None);
}

#[test]
fn ends_and_ranges_round_trip() {
    let map = sample();
    for run in map.runs() {
        let end = run.source + run.length;
        let to = map.to_output_end(end).expect("an end");
        assert_eq!(map.to_source_end(to), Some(end));
        let range = map.to_output_range(run.source, end).expect("a range");
        assert_eq!(map.to_source_range(range.0, range.1), Some((run.source, end)));
    }
}

#[test]
fn a_range_whose_end_comes_before_its_run_is_refused() {
    let map = map("ab cd", "ab cd", &[(0, 0, 2), (3, 3, 2)]);
    assert_eq!(map.to_output_range(3, 1), None);
}

#[test]
fn what_was_lost_is_counted() {
    let mut map = sample();
    assert_eq!((map.lost(), map.abandoned()), (0, None));
    map.note_lost();
    map.abandon("a reason");
    map.abandon("another");
    assert_eq!((map.lost(), map.abandoned()), (1, Some("a reason")));
}
