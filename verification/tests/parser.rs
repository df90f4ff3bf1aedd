use runic::parser::parse;
use runic::FormatSpan;
use runic::Renderer;
use runic::Tag;

#[test]
fn no_delimiters_no_spans() {
    let mut r = Renderer::from("hello world\n\nplain text");
    r.render();
    assert_eq!(r.format_spans, vec![]);
}

#[test]
fn emphasis_star() {
    let mut r = Renderer::from("*a*");
    r.render();
    assert_eq!(
        r.format_spans,
        vec![
            FormatSpan { start: 0, end: 3, tag: Tag::Emphasis },
            FormatSpan { start: 0, end: 1, tag: Tag::Syntax },
            FormatSpan { start: 2, end: 3, tag: Tag::Syntax },
        ]
    );
}

#[test]
fn strong_star() {
    let mut r = Renderer::from("**a**");
    r.render();
    assert_eq!(
        r.format_spans,
        vec![
            FormatSpan { start: 0, end: 5, tag: Tag::Strong },
            FormatSpan { start: 0, end: 1, tag: Tag::Syntax },
            FormatSpan { start: 1, end: 2, tag: Tag::Syntax },
            FormatSpan { start: 3, end: 4, tag: Tag::Syntax },
            FormatSpan { start: 4, end: 5, tag: Tag::Syntax },
        ]
    );
}

#[test]
fn strong_is_not_reread_as_emphasis() {
    let mut r = Renderer::from("**a**");
    r.render();
    assert!(r.format_spans.iter().all(|s| s.tag != Tag::Emphasis));
}

#[test]
fn four_stars_no_strong() {
    let mut r = Renderer::from("****");
    r.render();
    assert!(r.format_spans.iter().all(|s| s.tag != Tag::Strong));
    // The dangling double-delimiter run is left to the later stages:
    // the single-character scan pairs the first and third star.
    assert_eq!(
        r.format_spans,
        vec![
            FormatSpan { start: 0, end: 3, tag: Tag::Emphasis },
            FormatSpan { start: 0, end: 1, tag: Tag::Syntax },
            FormatSpan { start: 2, end: 3, tag: Tag::Syntax },
        ]
    );
}

#[test]
fn escaped_star_is_literal() {
    let mut r = Renderer::from("a\\*b*c*");
    r.render();
    assert_eq!(
        r.format_spans,
        vec![
            FormatSpan { start: 4, end: 7, tag: Tag::Emphasis },
            FormatSpan { start: 1, end: 2, tag: Tag::Syntax },
            FormatSpan { start: 4, end: 5, tag: Tag::Syntax },
            FormatSpan { start: 6, end: 7, tag: Tag::Syntax },
        ]
    );
}

#[test]
fn escaped_backslash() {
    let mut r = Renderer::from("\\\\");
    r.render();
    assert_eq!(
        r.format_spans,
        vec![FormatSpan { start: 0, end: 1, tag: Tag::Syntax }]
    );
}

#[test]
fn paragraph_break_blocks_emphasis() {
    let mut r = Renderer::from("a*b\n\nc*d");
    r.render();
    assert_eq!(r.format_spans, vec![]);
}

#[test]
fn strong_underscore() {
    let mut r = Renderer::from("__a__");
    r.render();
    assert_eq!(
        r.format_spans,
        vec![
            FormatSpan { start: 0, end: 5, tag: Tag::Strong },
            FormatSpan { start: 0, end: 1, tag: Tag::Syntax },
            FormatSpan { start: 1, end: 2, tag: Tag::Syntax },
            FormatSpan { start: 3, end: 4, tag: Tag::Syntax },
            FormatSpan { start: 4, end: 5, tag: Tag::Syntax },
        ]
    );
}

#[test]
fn emphasis_underscore() {
    let mut r = Renderer::from("_a_");
    r.render();
    assert_eq!(
        r.format_spans,
        vec![
            FormatSpan { start: 0, end: 3, tag: Tag::Emphasis },
            FormatSpan { start: 0, end: 1, tag: Tag::Syntax },
            FormatSpan { start: 2, end: 3, tag: Tag::Syntax },
        ]
    );
}

#[test]
fn strikethrough_tildes() {
    let mut r = Renderer::from("~~a~~");
    r.render();
    assert_eq!(
        r.format_spans,
        vec![
            FormatSpan { start: 0, end: 5, tag: Tag::Strikethrough },
            FormatSpan { start: 0, end: 1, tag: Tag::Syntax },
            FormatSpan { start: 1, end: 2, tag: Tag::Syntax },
            FormatSpan { start: 3, end: 4, tag: Tag::Syntax },
            FormatSpan { start: 4, end: 5, tag: Tag::Syntax },
        ]
    );
}

#[test]
fn code_backticks() {
    let mut r = Renderer::from("`a`");
    r.render();
    assert_eq!(
        r.format_spans,
        vec![
            FormatSpan { start: 0, end: 3, tag: Tag::Code },
            FormatSpan { start: 0, end: 1, tag: Tag::Syntax },
            FormatSpan { start: 2, end: 3, tag: Tag::Syntax },
        ]
    );
}

#[test]
fn strong_then_emphasis_in_one_text() {
    let mut r = Renderer::from("**a** *b*");
    r.render();
    assert_eq!(
        r.format_spans,
        vec![
            FormatSpan { start: 0, end: 5, tag: Tag::Strong },
            FormatSpan { start: 6, end: 9, tag: Tag::Emphasis },
            FormatSpan { start: 0, end: 1, tag: Tag::Syntax },
            FormatSpan { start: 1, end: 2, tag: Tag::Syntax },
            FormatSpan { start: 3, end: 4, tag: Tag::Syntax },
            FormatSpan { start: 4, end: 5, tag: Tag::Syntax },
            FormatSpan { start: 6, end: 7, tag: Tag::Syntax },
            FormatSpan { start: 8, end: 9, tag: Tag::Syntax },
        ]
    );
}

#[test]
fn spans_keep_stage_order_not_position_order() {
    // Emphasis scans before code, so its span comes first even though
    // the code span starts earlier; syntax spans follow consumption
    // order.
    let mut r = Renderer::from("`*a*`");
    r.render();
    assert_eq!(
        r.format_spans,
        vec![
            FormatSpan { start: 1, end: 4, tag: Tag::Emphasis },
            FormatSpan { start: 0, end: 5, tag: Tag::Code },
            FormatSpan { start: 1, end: 2, tag: Tag::Syntax },
            FormatSpan { start: 3, end: 4, tag: Tag::Syntax },
            FormatSpan { start: 0, end: 1, tag: Tag::Syntax },
            FormatSpan { start: 4, end: 5, tag: Tag::Syntax },
        ]
    );
}

#[test]
fn parse_is_deterministic() {
    let r = Renderer::from("a *b* `c` ~~d~~\n\n**e**");
    let first = parse(&r.graphemes, None);
    let second = parse(&r.graphemes, None);
    assert_eq!(first, second);
}

#[test]
fn render_twice_is_idempotent() {
    let mut r = Renderer::from("a *b* and __c__");
    r.render();
    let first = r.format_spans.clone();
    r.render();
    assert_eq!(first, r.format_spans);
}

#[test]
fn empty_text_parses_empty() {
    let mut r = Renderer::from("");
    r.render();
    assert!(r.graphemes.is_empty());
    assert_eq!(r.format_spans, vec![]);
}

#[test]
fn triple_stars_strong_then_inner_emphasis() {
    let mut r = Renderer::from("***a***");
    r.render();
    assert_eq!(
        r.format_spans,
        vec![
            FormatSpan { start: 0, end: 6, tag: Tag::Strong },
            FormatSpan { start: 2, end: 7, tag: Tag::Emphasis },
            FormatSpan { start: 0, end: 1, tag: Tag::Syntax },
            FormatSpan { start: 1, end: 2, tag: Tag::Syntax },
            FormatSpan { start: 4, end: 5, tag: Tag::Syntax },
            FormatSpan { start: 5, end: 6, tag: Tag::Syntax },
            FormatSpan { start: 2, end: 3, tag: Tag::Syntax },
            FormatSpan { start: 6, end: 7, tag: Tag::Syntax },
        ]
    );
}

#[test]
fn escaped_star_blocks_strong_opening() {
    let mut r = Renderer::from("\\**a**");
    r.render();
    assert!(r.format_spans.iter().all(|s| s.tag != Tag::Strong));
    assert_eq!(
        r.format_spans,
        vec![
            FormatSpan { start: 2, end: 5, tag: Tag::Emphasis },
            FormatSpan { start: 0, end: 1, tag: Tag::Syntax },
            FormatSpan { start: 2, end: 3, tag: Tag::Syntax },
            FormatSpan { start: 4, end: 5, tag: Tag::Syntax },
        ]
    );
}

#[test]
fn escape_does_not_cross_lines() {
    let mut r = Renderer::from("\\\n*a*");
    r.render();
    assert_eq!(
        r.format_spans,
        vec![
            FormatSpan { start: 2, end: 5, tag: Tag::Emphasis },
            FormatSpan { start: 2, end: 3, tag: Tag::Syntax },
            FormatSpan { start: 4, end: 5, tag: Tag::Syntax },
        ]
    );
}

#[test]
fn multi_code_point_grapheme_counts_as_one_index() {
    // The thumbs-up with a skin-tone modifier is several code points but
    // one grapheme cluster: the emphasis right after it starts at
    // grapheme index 1.
    let mut r = Renderer::from("\u{1F44D}\u{1F3FD}*a*");
    r.render();
    assert_eq!(r.graphemes.len(), 4);
    assert_eq!(
        r.format_spans,
        vec![
            FormatSpan { start: 1, end: 4, tag: Tag::Emphasis },
            FormatSpan { start: 1, end: 2, tag: Tag::Syntax },
            FormatSpan { start: 3, end: 4, tag: Tag::Syntax },
        ]
    );
}
