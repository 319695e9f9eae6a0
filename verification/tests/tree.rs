use luaux_lsp::scan::{around, Context};
use luaux_lsp::tree::{flatten, innermost_at, tree};

fn names(source: &str) -> Vec<String> {
    flatten(&tree(source)).into_iter().map(|tag| tag.name.clone()).collect()
}

#[test]
fn walks_nested_elements() {
    assert_eq!(
        names("local e = <Frame><TextLabel/><UICorner/></Frame>"),
        ["Frame", "TextLabel", "UICorner"]
    );
}

#[test]
fn walks_into_captured_expressions() {
    assert_eq!(names("local e = <Frame>{cond and <Row/> or nil}</Frame>"), ["Frame", "Row"]);
    assert_eq!(names("local e = <Frame Size={f(<TextLabel/>)} />"), ["Frame", "TextLabel"]);
}

#[test]
fn finds_both_halves_of_a_pair() {
    let source = "local e = <Frame></Frame>";
    let tags = tree(source);
    let frame = &tags[0];

    assert_eq!(&source[frame.open_name.0..frame.open_name.1], "Frame");
    let close = frame.close_name.expect("a closing name");
    assert_eq!(&source[close.0..close.1], "Frame");
    assert!(close.0 > frame.open_name.0);
}

#[test]
fn a_self_closing_element_has_no_closing_name() {
    assert_eq!(tree("local e = <Frame/>")[0].close_name, None);
}

/// `< Frame/>` is legal: the parser skips whitespace after the `<`. Hover
/// underlines these bytes and rename *rewrites* them, so computing the name
/// as `span.start + 1` turns a rename into `" Fr"` plus leftovers.
#[test]
fn whitespace_after_the_open_angle_does_not_shift_the_name() {
    let source = "local e = < Frame />";
    let open = tree(source)[0].open_name;
    assert_eq!(&source[open.0..open.1], "Frame");
}

#[test]
fn whitespace_in_a_closing_tag_does_not_shift_the_name() {
    let source = "local e = <Frame></ Frame >";
    let close = tree(source)[0].close_name.expect("a closing name");
    assert_eq!(&source[close.0..close.1], "Frame");
}

#[test]
fn the_name_attribute_labels_the_outline() {
    assert_eq!(tree("local e = <Frame Name=\"Header\"/>")[0].label.as_deref(), Some("Header"));
    assert_eq!(tree("local e = <Frame/>")[0].label, None);
}

#[test]
fn the_innermost_element_wins() {
    let source = "local e = <Frame><TextLabel/></Frame>";
    let tags = tree(source);
    let at = source.find("TextLabel").expect("inner");

    assert_eq!(innermost_at(&tags, at).map(|tag| tag.name.as_str()), Some("TextLabel"));
    assert_eq!(innermost_at(&tags, 0).map(|tag| tag.name.as_str()), None);
}

#[test]
fn a_position_on_either_name_is_on_the_element() {
    let source = "local e = <Frame></Frame>";
    let frame = &tree(source)[0];

    assert!(frame.name_at(source.find("Frame").expect("open")).is_some());
    assert!(frame.name_at(source.rfind("Frame").expect("close")).is_some());
    assert!(frame.name_at(0).is_none());
}

#[test]
fn fragments_appear_with_their_children() {
    assert_eq!(names("local e = (<><Frame/></>)"), ["", "Frame"]);
}

#[test]
fn children_come_in_the_order_they_are_written() {
    assert_eq!(
        names("local e = <A B={f(<C/>)}>{g(<D/>)}<E/></A>"),
        ["A", "C", "D", "E"]
    );
}

#[test]
fn a_closing_name_is_not_looked_for_inside_a_self_closing_element() {
    assert_eq!(tree("local e = <Frame Name=\"</Frame\"/>")[0].close_name, None);
    assert_eq!(tree("local e = <Frame A={<Frame></Frame>}/>")[0].close_name, None);
}

#[test]
fn names_stand_where_they_say() {
    let source = "local e = < Frame Size={f(<Row></ Row >)}><ui.Card/></Frame\n>";
    let tags = tree(source);
    let flat = flatten(&tags);
    assert_eq!(flat.len(), 3);
    for tag in flat {
        assert_eq!(&source[tag.open_name.0..tag.open_name.1], tag.name);
        assert!(tag.start < tag.open_name.0 && tag.open_name.1 <= tag.end);
        if let Some((start, end)) = tag.close_name {
            assert_eq!(&source[start..end], tag.name);
            assert!(tag.open_name.1 <= start && end <= tag.end);
        }
    }
}

#[test]
fn the_elements_around_a_place_tell_what_it_is_in() {
    let source = "local e = <Frame><TextLabel/></Frame>";
    let tags = tree(source);
    let at = source.find("TextLabel").expect("inner");
    match around(&tags, at) {
        Context::AttributeName { tag, start, prefix } => {
            assert_eq!((tag.as_str(), start, prefix.as_str()), ("TextLabel", at, ""));
        }
        other => panic!("{other:?}"),
    }
    assert!(matches!(around(&tags, 0), Context::Luau));
}
