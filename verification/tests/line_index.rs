use luaux_lsp::line_index::{ceil_boundary, floor_boundary, LineIndex, Position};

#[test]
fn maps_offsets_to_lines() {
    let text = "a\nbb\n\nccc";
    let index = LineIndex::new(text);

    assert_eq!(index.position(text, 0), Position::new(0, 0));
    assert_eq!(index.position(text, 2), Position::new(1, 0));
    assert_eq!(index.position(text, 4), Position::new(1, 2));
    assert_eq!(index.position(text, 5), Position::new(2, 0));
    assert_eq!(index.position(text, 6), Position::new(3, 0));
}

#[test]
fn round_trips_every_boundary() {
    let text = "local e = <Frame/>\n  <TextLabel>Hi</TextLabel>\nend\n";
    let index = LineIndex::new(text);

    for offset in 0..=text.len() {
        if !text.is_char_boundary(offset) {
            continue;
        }
        let position = index.position(text, offset);
        assert_eq!(index.offset(text, position), Some(offset), "at {offset}");
    }
}

#[test]
fn counts_utf16_code_units() {
    // An emoji is one char, two UTF-16 units, four bytes — all three differ,
    // which is exactly the case that goes wrong when they are conflated.
    let text = "a😀b";
    let index = LineIndex::new(text);

    assert_eq!(index.position(text, 5), Position::new(0, 3));
    assert_eq!(index.offset(text, Position::new(0, 3)), Some(5));
    // Landing inside the surrogate pair snaps to the character it belongs to.
    assert_eq!(index.offset(text, Position::new(0, 2)), Some(5));
}

#[test]
fn a_character_past_the_line_clamps_to_its_end() {
    let text = "ab\ncd\n";
    let index = LineIndex::new(text);
    assert_eq!(index.offset(text, Position::new(0, 99)), Some(2));
    assert_eq!(index.offset(text, Position::new(9, 0)), None);
}

#[test]
fn an_offset_inside_a_character_snaps_to_its_start() {
    // A non-breaking space — Option+Space on a Mac — is two bytes. A length
    // computed in bytes lands in the middle of one, and slicing there used
    // to panic and take the whole server with it.
    let text = "a\u{a0}b";
    let index = LineIndex::new(text);

    assert_eq!(index.position(text, 2), index.position(text, 1));
    assert_eq!(index.position(text, 3), Position::new(0, 2));
    // Past the end is still the end.
    assert_eq!(index.position(text, 999), Position::new(0, 3));
}

#[test]
fn boundaries_round_outwards() {
    let text = "a\u{a0}b";
    assert_eq!((floor_boundary(text, 2), ceil_boundary(text, 2)), (1, 3));
    // Already on one: unchanged in both directions.
    assert_eq!((floor_boundary(text, 1), ceil_boundary(text, 1)), (1, 1));
    assert_eq!(ceil_boundary(text, 999), text.len());
}

#[test]
fn crlf_terminators_are_not_part_of_the_line() {
    let text = "ab\r\ncd";
    let index = LineIndex::new(text);
    assert_eq!(index.line_range(text, 0), (0, 2));
    assert_eq!(index.offset(text, Position::new(0, 99)), Some(2));
    assert_eq!(index.position(text, 4), Position::new(1, 0));
}

#[test]
fn an_offset_past_the_end_is_on_the_last_line() {
    let index = LineIndex::new("a\nb\n");
    assert_eq!(index.line_count(), 3);
    assert_eq!((index.line_of(0), index.line_of(2), index.line_of(99)), (0, 1, 2));
    assert_eq!((index.line_start(1), index.line_start(9)), (2, 4));
}

#[test]
fn later_offsets_have_later_positions() {
    let text = "a\u{a0}😀\r\n\nb";
    let index = LineIndex::new(text);
    for offset in 0..text.len() {
        assert!(index.position(text, offset) <= index.position(text, offset + 1));
    }
}
