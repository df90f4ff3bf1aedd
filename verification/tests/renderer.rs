use runic::parser::{parse, select_range};
use runic::style::styles_of;
use runic::GraphemeRange;
use runic::Renderer;
use runic::Tag;

#[test]
fn tag_identifiers() {
    assert_eq!(Tag::Emphasis.to_string(), "em");
    assert_eq!(Tag::Strong.to_string(), "strong");
    assert_eq!(Tag::Strikethrough.to_string(), "s");
    assert_eq!(Tag::Code.to_string(), "code");
    assert_eq!(Tag::Syntax.to_string(), "syntax");
}

#[test]
fn styles_are_the_five_tags_in_order() {
    assert_eq!(
        styles_of(),
        vec![Tag::Emphasis, Tag::Strong, Tag::Strikethrough, Tag::Code, Tag::Syntax]
    );
}

#[test]
fn fresh_renderer_has_no_spans_and_no_range() {
    let r = Renderer::from("some *text*");
    assert_eq!(r.text, "some *text*");
    assert!(r.format_spans.is_empty());
    assert!(r.update_range.is_none());
}

#[test]
fn select_range_inside_first_paragraph() {
    let r = Renderer::from("aa\n\nbb");
    let range = select_range(&r.graphemes, 1);
    assert_eq!(range, GraphemeRange { start: 0, end: 2 });
}

#[test]
fn select_range_inside_second_paragraph() {
    let r = Renderer::from("aa\n\nbb");
    let range = select_range(&r.graphemes, 5);
    assert_eq!(range, GraphemeRange { start: 4, end: 6 });
}

#[test]
fn select_range_right_after_break_starts_there() {
    let r = Renderer::from("aa\n\nbb");
    let range = select_range(&r.graphemes, 4);
    assert_eq!(range, GraphemeRange { start: 4, end: 6 });
}

#[test]
fn select_range_without_breaks_covers_whole_text() {
    let r = Renderer::from("plain text");
    let range = select_range(&r.graphemes, 3);
    assert_eq!(range, GraphemeRange { start: 0, end: 10 });
}

#[test]
fn select_range_with_cursor_between_break_newlines() {
    let r = Renderer::from("aa\n\nbb");
    let range = select_range(&r.graphemes, 3);
    assert_eq!(range, GraphemeRange { start: 0, end: 6 });
}

#[test]
fn range_parse_matches_restricted_full_parse() {
    let r = Renderer::from("aa *x*\n\nbb *y* cc");
    let range = select_range(&r.graphemes, 9);
    assert_eq!(range, GraphemeRange { start: 8, end: 17 });
    let full = parse(&r.graphemes, None);
    let restricted: Vec<_> = full
        .iter()
        .copied()
        .filter(|s| range.start <= s.start && s.end <= range.end)
        .collect();
    let windowed = parse(&r.graphemes, Some(range));
    assert_eq!(restricted, windowed);
}

#[test]
fn rescan_parses_only_the_cursor_paragraph() {
    let mut r = Renderer::from("*a*\n\n*b*");
    r.rescan(7);
    assert_eq!(r.update_range, Some(GraphemeRange { start: 5, end: 8 }));
    assert_eq!(r.format_spans.len(), 3);
    assert!(r.format_spans.iter().all(|s| s.start >= 5 && s.end <= 8));
    assert_eq!(r.format_spans[0].tag, Tag::Emphasis);
    assert_eq!((r.format_spans[0].start, r.format_spans[0].end), (5, 8));
}

#[test]
fn render_covers_whole_document_and_clears_range() {
    let mut r = Renderer::from("*a*\n\n*b*");
    r.rescan(7);
    r.render();
    assert!(r.update_range.is_none());
    assert_eq!(r.format_spans.len(), 6);
}
