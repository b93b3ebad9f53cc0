use reformahtml::boundary::{
    body_begins_with_dt_or_dd_after_single_lf, classify_ahead, has_single_lf,
    leading_lf_indent_end_before_dt_or_dd, line_at_pos_starts_with_dt_or_dd,
    prev_line_ends_with_structural_start, starts_comment, trailing_lf_count_ignoring_spaces,
};

#[test]
fn line_before_ends_in_block_start_tag() {
    assert!(prev_line_ends_with_structural_start(b"<div>", 5));
    assert!(prev_line_ends_with_structural_start(b"<div>  ", 7));
    assert!(prev_line_ends_with_structural_start(b"<div>\n  ", 8));
    assert!(prev_line_ends_with_structural_start(b"<div>\n", 6));
    assert!(prev_line_ends_with_structural_start(b"<div>\n\n \n", 9));
    assert!(prev_line_ends_with_structural_start(b"x\n<LI class=a>\n\t", 16));
    assert!(prev_line_ends_with_structural_start(b"text <p>", 8));
    assert!(prev_line_ends_with_structural_start(b"<b><td>", 7));
}

#[test]
fn line_before_ends_in_something_else() {
    assert!(!prev_line_ends_with_structural_start(b"</div>", 6));
    assert!(!prev_line_ends_with_structural_start(b"<span>", 6));
    assert!(!prev_line_ends_with_structural_start(b"<div>x", 6));
    assert!(!prev_line_ends_with_structural_start(b"text", 4));
    assert!(!prev_line_ends_with_structural_start(b"a > b >", 7));
    assert!(!prev_line_ends_with_structural_start(b"<div>\ntext\n  ", 13));
    assert!(!prev_line_ends_with_structural_start(b"<div\n>", 6));
    assert!(!prev_line_ends_with_structural_start(b"", 0));
    assert!(!prev_line_ends_with_structural_start(b"\n\n", 2));
    assert!(!prev_line_ends_with_structural_start(b"<div>", 3));
    assert!(!prev_line_ends_with_structural_start(b"<div>", 9));
    assert!(!prev_line_ends_with_structural_start(b"<!-- c -->\n", 11));
}

#[test]
fn single_line_feed() {
    assert!(has_single_lf(b"\n"));
    assert!(has_single_lf(b" \n\t"));
    assert!(has_single_lf(b"a\nb"));
    assert!(!has_single_lf(b"\n\n"));
    assert!(!has_single_lf(b"\n \n \n"));
    assert!(!has_single_lf(b""));
    assert!(!has_single_lf(b"  "));
    assert!(!has_single_lf(b"\r"));
}

#[test]
fn line_feeds_at_the_end_are_counted() {
    assert_eq!(trailing_lf_count_ignoring_spaces(b"a\n  "), 1);
    assert_eq!(trailing_lf_count_ignoring_spaces(b"a\n"), 1);
    assert_eq!(trailing_lf_count_ignoring_spaces(b"a\n\n\t"), 2);
    assert_eq!(trailing_lf_count_ignoring_spaces(b"a\n \n"), 1);
    assert_eq!(trailing_lf_count_ignoring_spaces(b"a"), 0);
    assert_eq!(trailing_lf_count_ignoring_spaces(b"a  "), 0);
    assert_eq!(trailing_lf_count_ignoring_spaces(b"\n\n\n"), 3);
    assert_eq!(trailing_lf_count_ignoring_spaces(b""), 0);
    assert_eq!(trailing_lf_count_ignoring_spaces(b"a\r\n"), 1);
}

#[test]
fn body_that_starts_with_a_definition_line() {
    assert!(body_begins_with_dt_or_dd_after_single_lf(b"\n  : term"));
    assert!(body_begins_with_dt_or_dd_after_single_lf(b"\n:: d"));
    assert!(body_begins_with_dt_or_dd_after_single_lf(b"\n:"));
    assert!(body_begins_with_dt_or_dd_after_single_lf(b"\n\t::"));
    assert!(body_begins_with_dt_or_dd_after_single_lf(b"\n:\tx"));
    assert!(!body_begins_with_dt_or_dd_after_single_lf(b"\n:x"));
    assert!(!body_begins_with_dt_or_dd_after_single_lf(b"\n::x"));
    assert!(!body_begins_with_dt_or_dd_after_single_lf(b"\n::: x"));
    assert!(!body_begins_with_dt_or_dd_after_single_lf(b": t"));
    assert!(!body_begins_with_dt_or_dd_after_single_lf(b"\n\n: t"));
    assert!(!body_begins_with_dt_or_dd_after_single_lf(b"\n"));
    assert!(!body_begins_with_dt_or_dd_after_single_lf(b""));
    assert!(!body_begins_with_dt_or_dd_after_single_lf(b"\n x: y"));
}

#[test]
fn indentation_before_a_definition_marker() {
    assert_eq!(leading_lf_indent_end_before_dt_or_dd(b"\n  : term"), Some(3));
    assert_eq!(leading_lf_indent_end_before_dt_or_dd(b"\n:: d"), Some(1));
    assert_eq!(leading_lf_indent_end_before_dt_or_dd(b"\n\t \t:"), Some(4));
    assert_eq!(leading_lf_indent_end_before_dt_or_dd(b"\n:x"), None);
    assert_eq!(leading_lf_indent_end_before_dt_or_dd(b": t"), None);
    assert_eq!(leading_lf_indent_end_before_dt_or_dd(b"\n"), None);
    assert_eq!(leading_lf_indent_end_before_dt_or_dd(b""), None);
}

#[test]
fn line_that_starts_with_a_definition_marker() {
    let src = b"a\n : t<b>x\n:: d";
    assert!(line_at_pos_starts_with_dt_or_dd(src, 6));
    assert!(line_at_pos_starts_with_dt_or_dd(src, 2));
    assert!(line_at_pos_starts_with_dt_or_dd(src, 10));
    assert!(line_at_pos_starts_with_dt_or_dd(src, 11));
    assert!(line_at_pos_starts_with_dt_or_dd(src, 15));
    assert!(!line_at_pos_starts_with_dt_or_dd(src, 0));
    assert!(!line_at_pos_starts_with_dt_or_dd(src, 1));
    assert!(!line_at_pos_starts_with_dt_or_dd(src, 16));
    assert!(!line_at_pos_starts_with_dt_or_dd(b"x\n", 2));
    assert!(!line_at_pos_starts_with_dt_or_dd(b"", 0));
}

#[test]
fn comment_opener() {
    assert!(starts_comment(b"<!-- x", 0));
    assert!(starts_comment(b"ab<!--", 2));
    assert!(!starts_comment(b"<!- x", 0));
    assert!(!starts_comment(b"<!--", 1));
    assert!(!starts_comment(b"<!-", 0));
    assert!(!starts_comment(b"", 0));
    assert!(!starts_comment(b"<!--", 9));
}

#[test]
fn what_follows_is_a_comment() {
    let (alone, inline, tag) = classify_ahead(b"<!-- a -->\n", 0);
    assert!(alone && !inline && tag.is_none());
    let (alone, inline, tag) = classify_ahead(b"x<!-- a -->\n", 1);
    assert!(!alone && inline && tag.is_none());
    let (alone, inline, tag) = classify_ahead(b"<!-- a -->", 0);
    assert!(!alone && inline && tag.is_none());
    let (alone, inline, tag) = classify_ahead(b"<!-- a", 0);
    assert!(!alone && !inline && tag.is_none());
}

#[test]
fn what_follows_is_a_tag() {
    let (alone, inline, tag) = classify_ahead(b"ab</EM >", 2);
    assert!(!alone && !inline);
    let t = tag.unwrap();
    assert_eq!(t.name, b"EM");
    assert!(t.is_end);
    assert!(!t.self_closing);
    let (_, _, tag) = classify_ahead(b"<br/>", 0);
    let t = tag.unwrap();
    assert_eq!(t.name, b"br");
    assert!(!t.is_end);
    assert!(t.self_closing);
    let (_, _, tag) = classify_ahead(b"<!doctype html>", 0);
    assert_eq!(tag.unwrap().name, b"");
}

#[test]
fn what_follows_is_nothing() {
    let (alone, inline, tag) = classify_ahead(b"abc", 3);
    assert!(!alone && !inline && tag.is_none());
    let (alone, inline, tag) = classify_ahead(b"abc", 0);
    assert!(!alone && !inline && tag.is_none());
    let (alone, inline, tag) = classify_ahead(b"<em", 0);
    assert!(!alone && !inline && tag.is_none());
    let (alone, inline, tag) = classify_ahead(b"<em>", 77);
    assert!(!alone && !inline && tag.is_none());
}
