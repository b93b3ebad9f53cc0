use reformahtml::tag::{
    find_tag_end, normalize_inside_tag, parse_tag_info, tag_has_noreformat_attr,
};

fn normalized(tag: &[u8]) -> String {
    let mut out = Vec::new();
    normalize_inside_tag(tag, &mut out);
    String::from_utf8(out).unwrap()
}

#[test]
fn tag_ends_at_the_first_gt_outside_quotes() {
    assert_eq!(find_tag_end(b"<a>", 0), Some(2));
    assert_eq!(find_tag_end(b"<a href=\">\">x", 0), Some(11));
    assert_eq!(find_tag_end(b"<a href='>'>x", 0), Some(11));
    assert_eq!(find_tag_end(b"<a t='\"' >", 0), Some(9));
    assert_eq!(find_tag_end(b"xx<b>yy<i>", 2), Some(4));
    assert_eq!(find_tag_end(b"xx<b>yy<i>", 7), Some(9));
    assert_eq!(find_tag_end(b"<>", 0), Some(1));
}

#[test]
fn tag_that_never_ends_has_no_end() {
    assert_eq!(find_tag_end(b"<a href", 0), None);
    assert_eq!(find_tag_end(b"<a 'x>", 0), None);
    assert_eq!(find_tag_end(b"<a \"x'>", 0), None);
    assert_eq!(find_tag_end(b"<", 0), None);
    assert_eq!(find_tag_end(b"<a>", 2), None);
    assert_eq!(find_tag_end(b"<a>", 3), None);
    assert_eq!(find_tag_end(b"<a>", 50), None);
    assert_eq!(find_tag_end(b"", 0), None);
}

#[test]
fn tag_info_of_start_tags() {
    let t = parse_tag_info(b"<div class=x>");
    assert_eq!(t.name, b"div");
    assert!(!t.is_end);
    assert!(!t.self_closing);
    let t = parse_tag_info(b"<  Span>");
    assert_eq!(t.name, b"Span");
    assert!(!t.is_end);
    let t = parse_tag_info(b"<a:b-c_d e>");
    assert_eq!(t.name, b"a:b-c_d");
    let t = parse_tag_info(b"<!doctype html>");
    assert_eq!(t.name, b"");
    assert!(!t.is_end);
}

#[test]
fn tag_info_of_end_tags() {
    let t = parse_tag_info(b"</div>");
    assert_eq!(t.name, b"div");
    assert!(t.is_end);
    assert!(!t.self_closing);
    let t = parse_tag_info(b"</ div >");
    assert_eq!(t.name, b"div");
    assert!(t.is_end);
    assert!(!t.self_closing);
    let t = parse_tag_info(b"< /p>");
    assert_eq!(t.name, b"");
    assert!(!t.is_end);
}

#[test]
fn tag_info_of_self_closing_tags() {
    let t = parse_tag_info(b"<br/>");
    assert_eq!(t.name, b"br");
    assert!(t.self_closing);
    let t = parse_tag_info(b"<br / >");
    assert_eq!(t.name, b"br");
    assert!(t.self_closing);
    let t = parse_tag_info(b"<img src=x />");
    assert!(t.self_closing);
    let t = parse_tag_info(b"<a href=/>");
    assert!(t.self_closing);
    let t = parse_tag_info(b"</>");
    assert_eq!(t.name, b"");
    assert!(t.is_end);
    assert!(t.self_closing);
}

#[test]
fn tag_info_of_scraps() {
    let t = parse_tag_info(b"");
    assert_eq!(t.name, b"");
    assert!(!t.is_end);
    assert!(!t.self_closing);
    let t = parse_tag_info(b"<");
    assert_eq!(t.name, b"");
    assert!(!t.is_end);
    assert!(!t.self_closing);
    let t = parse_tag_info(b"</");
    assert_eq!(t.name, b"");
    assert!(t.is_end);
    assert!(!t.self_closing);
    let t = parse_tag_info(b"<>");
    assert_eq!(t.name, b"");
    assert!(!t.self_closing);
}

#[test]
fn marker_attribute_is_found() {
    assert!(tag_has_noreformat_attr(b"<div data-noreformat>"));
    assert!(tag_has_noreformat_attr(b"<div DATA-NoReformat>"));
    assert!(tag_has_noreformat_attr(b"<div data-noreformat=\"\">"));
    assert!(tag_has_noreformat_attr(b"<div class=a data-noreformat>"));
    assert!(tag_has_noreformat_attr(b"<div x = 'a' data-noreformat>"));
    assert!(tag_has_noreformat_attr(b"<div x=\"a\"data-noreformat>"));
    assert!(tag_has_noreformat_attr(b"<div\n\tdata-noreformat\n>"));
    assert!(tag_has_noreformat_attr(b"<img data-noreformat/>"));
    assert!(tag_has_noreformat_attr(b"<div / data-noreformat>"));
    assert!(tag_has_noreformat_attr(b"<div \"q\" data-noreformat>"));
    assert!(tag_has_noreformat_attr(b"<data-noreformat>"));
    assert!(tag_has_noreformat_attr(b"</div data-noreformat>"));
    assert!(tag_has_noreformat_attr(b"<div data-noreformat"));
}

#[test]
fn marker_attribute_is_not_found_in_values_or_longer_names() {
    assert!(!tag_has_noreformat_attr(b"<div>"));
    assert!(!tag_has_noreformat_attr(b"<div x=\"data-noreformat\">"));
    assert!(!tag_has_noreformat_attr(b"<div x='data-noreformat'>"));
    assert!(!tag_has_noreformat_attr(b"<div x=data-noreformat>"));
    assert!(!tag_has_noreformat_attr(b"<div x = data-noreformat>"));
    assert!(!tag_has_noreformat_attr(b"<div x=\"data-noreformat>"));
    assert!(!tag_has_noreformat_attr(b"<div data-noreformatted>"));
    assert!(!tag_has_noreformat_attr(b"<div xdata-noreformat>"));
    assert!(!tag_has_noreformat_attr(b"<div data-noreforma>"));
    assert!(!tag_has_noreformat_attr(b"<div x=>data-noreformat>"));
    assert!(!tag_has_noreformat_attr(b"<"));
    assert!(!tag_has_noreformat_attr(b""));
    assert!(!tag_has_noreformat_attr(b"<>"));
}

#[test]
fn whitespace_outside_quotes_collapses() {
    assert_eq!(normalized(b"< div >"), "<div>");
    assert_eq!(normalized(b"<a  href=\"x\"   class='y'>"), "<a href=\"x\" class='y'>");
    assert_eq!(normalized(b"<a\n   b>"), "<a b>");
    assert_eq!(normalized(b"<a\tb\r\nc>"), "<a b c>");
    assert_eq!(normalized(b"<a x=\"1\" >"), "<a x=\"1\">");
    assert_eq!(normalized(b"<br />"), "<br />");
    assert_eq!(normalized(b"</ div\n>"), "</ div>");
    assert_eq!(normalized(b"<div>"), "<div>");
}

#[test]
fn line_break_next_to_equals_vanishes() {
    assert_eq!(normalized(b"<a href\n=\n\"x\">"), "<a href=\"x\">");
    assert_eq!(normalized(b"<a href=\n  \"x\">"), "<a href=\"x\">");
    assert_eq!(normalized(b"<a href  \n=\"x\">"), "<a href=\"x\">");
    assert_eq!(normalized(b"<a href = \"x\">"), "<a href = \"x\">");
    assert_eq!(normalized(b"<a href  =  \"x\">"), "<a href = \"x\">");
    assert_eq!(normalized(b"<a b\n c=d>"), "<a b c=d>");
}

#[test]
fn whitespace_inside_quotes_stays_unless_it_holds_a_line_break() {
    assert_eq!(normalized(b"<a title=\"two  spaces\">"), "<a title=\"two  spaces\">");
    assert_eq!(normalized(b"<a title=\"a\n  b\">"), "<a title=\"a b\">");
    assert_eq!(normalized(b"<a title='a \t\n\n b'>"), "<a title='a b'>");
    assert_eq!(normalized(b"<a title=\"a\r b\">"), "<a title=\"a\r b\">");
    assert_eq!(normalized(b"<a title=\" \n\">"), "<a title=\" \">");
    assert_eq!(normalized(b"<a title='it\"s  \n  ok'  >"), "<a title='it\"s ok'>");
    assert_eq!(normalized(b"<a title=\"x =\n y\">"), "<a title=\"x = y\">");
}

#[test]
fn scraps_are_not_rewritten() {
    assert_eq!(normalized(b""), "");
    assert_eq!(normalized(b"<"), "<");
    assert_eq!(normalized(b"<>"), "<>");
    assert_eq!(normalized(b"<  >"), "<>");
}

#[test]
fn rewritten_tag_is_appended() {
    let mut out = b"before".to_vec();
    normalize_inside_tag(b"<a \n b>", &mut out);
    assert_eq!(out, b"before<a b>");
}

#[test]
fn rewriting_twice_changes_nothing_more() {
    for tag in [
        &b"< div >"[..],
        b"<a href\n=\n\"x\"  b = 'c  \n d'>",
        b"<a title=\"two  spaces\">",
        b"<p\n\n\nclass=x\n>",
    ] {
        let once = normalized(tag);
        assert_eq!(normalized(once.as_bytes()), once);
    }
}
