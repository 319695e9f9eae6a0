use luaux_lsp::regions::{braced, ending, first_statement_offset, spans, Ending};
use luaux_lsp::tree::tree;

#[test]
fn finds_each_outermost_region() {
    let source = "local a = <Frame/>\nlocal b = <TextLabel/>";
    let spans = spans(source);
    assert_eq!(spans.len(), 2);
    assert_eq!(&source[spans[0].0..spans[0].1], "<Frame/>");
    assert_eq!(&source[spans[1].0..spans[1].1], "<TextLabel/>");
}

#[test]
fn nested_luaux_is_inside_its_outermost_region() {
    let source = "local e = <Frame>{cond and <Row/> or nil}</Frame>";
    let spans = spans(source);
    assert_eq!(spans.len(), 1);
    assert_eq!(spans[0].1, source.len());
}

#[test]
fn comparisons_are_not_regions() {
    assert!(spans("local ok = a < b").is_empty());
    assert!(spans("local m: Map<string, number> = f()").is_empty());
}

#[test]
fn a_half_typed_tag_yields_what_came_before_it() {
    // `<Fra` does not parse. The earlier region is still reported.
    let source = "local a = <Frame/>\nlocal b = <Fra";
    assert_eq!(spans(source).len(), 1);
}

#[test]
fn the_injection_point_follows_leading_directives() {
    let source = "--!strict\n-- note\nlocal x = 1";
    assert_eq!(first_statement_offset(source), Some(source.find("local").unwrap()));
    assert_eq!(first_statement_offset("-- only a comment\n"), None);
}

#[test]
fn a_hole_is_what_its_braces_hold() {
    let source = "local e = <Frame Size={ size }/>";
    let from = source.find('{').unwrap();
    let (start, end) = braced(source, from).expect("a hole");
    assert_eq!(&source[start..end], "size");
    assert_eq!(braced("x = {  }", 4), None);
    assert_eq!(braced("x = {", 4), None);
}

#[test]
fn a_comment_that_closes_inside_its_opening_is_not_read() {
    for comment in ["<!-->", "<!--->"] {
        let source = format!("local e = <Frame>{comment}</Frame>");
        assert!(spans(&source).is_empty(), "{source}");
    }
    assert_eq!(spans("local e = <Frame><!----></Frame>").len(), 1);

    // What comes before it, or is not markup, is.
    let source = "local a = <Frame>{<Row/>}</Frame>\nlocal s = '<!-->'\nlocal b = <Row/> -- <!-->";
    assert_eq!(spans(source).len(), 2);
    assert_eq!(tree(source).len(), 2);
    assert_eq!(tree(source)[0].children[0].name, "Row");
}

#[test]
fn only_a_comment_in_the_markup_is_in_the_way() {
    assert_eq!(ending("local e = <Frame><!----><!---></Frame>"), Ending::Stuck(24));
    for source in [
        "local e = <Frame/> -- <!-->",
        "local s = '<!-->'",
        "local e = <Frame><!-- note --></Frame>",
        // In an attribute, in an expression, and as the end of another comment.
        "local e = <Frame Name=\"<!-->\"/>",
        "local e = <Frame Name={\"<!--->\"}/>",
        "local e = <Frame>{'<!-->'}</Frame>",
        "local e = <Frame><!-- a <!--></Frame>",
        "local e = <Frame><!-- a <!---></Frame>",
    ] {
        assert_eq!(ending(source), Ending::Done, "{source}");
    }
    assert_eq!(spans("local e = <Frame Name=\"<!-->\"/>").len(), 1);
    assert_eq!(ending("local e = <Frame"), Ending::Broken);
    assert_eq!(ending("local e = \""), Ending::Broken);
}
