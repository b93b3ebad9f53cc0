use reformahtml::line::{
    fence_close, fence_open, find_line_stop, is_atx_heading, is_blockquote, is_hr_line_stripped,
    is_setext_underline_stripped, parse_dd, parse_dt, starts_with_bullet, starts_with_ol,
    strip_bounds, Fence,
};

fn item(r: Option<(Vec<u8>, Vec<u8>)>) -> Option<(String, String)> {
    r.map(|(p, f)| (String::from_utf8(p).unwrap(), String::from_utf8(f).unwrap()))
}

fn pair(prefix: &str, first: &str) -> Option<(String, String)> {
    Some((prefix.to_string(), first.to_string()))
}

#[test]
fn line_stops_at_its_line_feed() {
    let text = b"ab\n\ncd";
    assert_eq!(find_line_stop(text, 0), 2);
    assert_eq!(find_line_stop(text, 1), 2);
    assert_eq!(find_line_stop(text, 2), 2);
    assert_eq!(find_line_stop(text, 3), 3);
    assert_eq!(find_line_stop(text, 4), 6);
    assert_eq!(find_line_stop(text, 6), 6);
}

#[test]
fn ascii_whitespace_is_stripped() {
    assert_eq!(strip_bounds(b" \t x y \r"), (3, 6));
    assert_eq!(strip_bounds(b"x"), (0, 1));
    assert_eq!(strip_bounds(b"\x0b\x0cx\x0b"), (2, 3));
    assert_eq!(strip_bounds(b"   "), (3, 3));
    assert_eq!(strip_bounds(b""), (0, 0));
}

#[test]
fn unicode_whitespace_is_stripped() {
    assert_eq!(strip_bounds("\u{a0}x\u{2003}".as_bytes()), (2, 3));
    assert_eq!(strip_bounds("\u{85}\u{1680}x\u{3000}\u{205f}".as_bytes()), (5, 6));
    assert_eq!(strip_bounds("\u{2028}\u{2029}\u{202f}\u{2000}\u{200a}".as_bytes()), (15, 15));
    assert_eq!(strip_bounds("\u{200b}".as_bytes()), (0, 3));
    assert_eq!(strip_bounds("\u{feff}x".as_bytes()), (0, 4));
    assert_eq!(strip_bounds("é é".as_bytes()), (0, 5));
}

#[test]
fn stripping_agrees_with_trim_on_text() {
    for text in [
        "  plain  ",
        "\u{a0}\u{a0}",
        "\t\u{2003}mixed \u{3000}text\u{85}\n",
        "\u{1680}",
        "none",
        "",
        " \u{200b} ",
    ] {
        let (a, b) = strip_bounds(text.as_bytes());
        assert_eq!(&text.as_bytes()[a..b], text.trim().as_bytes(), "{:?}", text);
    }
}

#[test]
fn bullet_items() {
    assert_eq!(item(starts_with_bullet(b"* item")), pair("* ", "item"));
    assert_eq!(item(starts_with_bullet(b"- item")), pair("- ", "item"));
    assert_eq!(item(starts_with_bullet(b"  *   item  ")), pair("  * ", "item  "));
    assert_eq!(item(starts_with_bullet(b"\t-\tx")), pair("\t- ", "x"));
    assert_eq!(item(starts_with_bullet(b"* ")), pair("* ", ""));
    assert_eq!(item(starts_with_bullet(b"- - -")), pair("- ", "- -"));
}

#[test]
fn lines_that_are_no_bullet_items() {
    assert_eq!(item(starts_with_bullet(b"*item")), None);
    assert_eq!(item(starts_with_bullet(b"*")), None);
    assert_eq!(item(starts_with_bullet(b"+ item")), None);
    assert_eq!(item(starts_with_bullet(b"a * b")), None);
    assert_eq!(item(starts_with_bullet(b"")), None);
    assert_eq!(item(starts_with_bullet(b"   ")), None);
    assert_eq!(item(starts_with_bullet(b"**bold** text")), None);
}

#[test]
fn ordered_items() {
    assert_eq!(item(starts_with_ol(b"1. one")), pair("1. ", "one"));
    assert_eq!(item(starts_with_ol(b"  12.   twelve")), pair("  12. ", "twelve"));
    assert_eq!(item(starts_with_ol(b"007.\tx")), pair("007. ", "x"));
    assert_eq!(item(starts_with_ol(b"3. ")), pair("3. ", ""));
}

#[test]
fn lines_that_are_no_ordered_items() {
    assert_eq!(item(starts_with_ol(b"1.one")), None);
    assert_eq!(item(starts_with_ol(b"1.")), None);
    assert_eq!(item(starts_with_ol(b"1) one")), None);
    assert_eq!(item(starts_with_ol(b". one")), None);
    assert_eq!(item(starts_with_ol(b"a. one")), None);
    assert_eq!(item(starts_with_ol(b"1 . one")), None);
    assert_eq!(item(starts_with_ol(b"")), None);
}

#[test]
fn definition_terms() {
    assert_eq!(item(parse_dt(b": term")), pair(": ", "term"));
    assert_eq!(item(parse_dt(b"  :   term")), pair("  : ", "term"));
    assert_eq!(item(parse_dt(b":")), pair(":", ""));
    assert_eq!(item(parse_dt(b"  :")), pair("  :", ""));
    assert_eq!(item(parse_dt(b":  ")), pair(":", ""));
    assert_eq!(item(parse_dt(b":\tterm")), pair(": ", "term"));
}

#[test]
fn lines_that_are_no_definition_terms() {
    assert_eq!(item(parse_dt(b":term")), None);
    assert_eq!(item(parse_dt(b":: desc")), None);
    assert_eq!(item(parse_dt(b"::")), None);
    assert_eq!(item(parse_dt(b"a: b")), None);
    assert_eq!(item(parse_dt(b"")), None);
}

#[test]
fn definition_descriptions() {
    assert_eq!(item(parse_dd(b":: desc")), pair(":: ", "desc"));
    assert_eq!(item(parse_dd(b" ::  desc ")), pair(" :: ", "desc "));
    assert_eq!(item(parse_dd(b"::")), pair("::", ""));
    assert_eq!(item(parse_dd(b":: ")), pair("::", ""));
}

#[test]
fn lines_that_are_no_definition_descriptions() {
    assert_eq!(item(parse_dd(b"::desc")), None);
    assert_eq!(item(parse_dd(b": term")), None);
    assert_eq!(item(parse_dd(b":")), None);
    assert_eq!(item(parse_dd(b"::: x")), None);
    assert_eq!(item(parse_dd(b"")), None);
}

#[test]
fn atx_headings() {
    assert!(is_atx_heading(b"# h"));
    assert!(is_atx_heading(b"###### h"));
    assert!(is_atx_heading(b"  ##\th"));
    assert!(is_atx_heading(b"# "));
    assert!(!is_atx_heading(b"####### h"));
    assert!(!is_atx_heading(b"#h"));
    assert!(!is_atx_heading(b"#"));
    assert!(!is_atx_heading(b"a # h"));
    assert!(!is_atx_heading(b""));
}

#[test]
fn block_quotes() {
    assert!(is_blockquote(b"> q"));
    assert!(is_blockquote(b">"));
    assert!(is_blockquote(b"  >\tq"));
    assert!(!is_blockquote(b">q"));
    assert!(!is_blockquote(b"a > b"));
    assert!(!is_blockquote(b""));
}

#[test]
fn horizontal_rules() {
    assert!(is_hr_line_stripped(b"***"));
    assert!(is_hr_line_stripped(b"---"));
    assert!(is_hr_line_stripped(b"___"));
    assert!(is_hr_line_stripped(b"* * *"));
    assert!(is_hr_line_stripped(b"-\t-  -----"));
    assert!(!is_hr_line_stripped(b"**"));
    assert!(!is_hr_line_stripped(b"*-*"));
    assert!(!is_hr_line_stripped(b"***a"));
    assert!(!is_hr_line_stripped(b"==="));
    assert!(!is_hr_line_stripped(b""));
    assert!(!is_hr_line_stripped(b"   "));
    assert!(!is_hr_line_stripped("—————".as_bytes()));
}

#[test]
fn setext_underlines() {
    assert!(is_setext_underline_stripped(b"=="));
    assert!(is_setext_underline_stripped(b"--"));
    assert!(is_setext_underline_stripped(b"======"));
    assert!(is_setext_underline_stripped(b"= ="));
    assert!(!is_setext_underline_stripped(b"="));
    assert!(!is_setext_underline_stripped(b"-"));
    assert!(!is_setext_underline_stripped(b"-="));
    assert!(!is_setext_underline_stripped(b"==a"));
    assert!(!is_setext_underline_stripped(b"**"));
    assert!(!is_setext_underline_stripped(b""));
}

#[test]
fn fences_open() {
    let f = fence_open(b"```").unwrap();
    assert_eq!((f.ch, f.min), (b'`', 3));
    let f = fence_open(b"  ~~~~rust").unwrap();
    assert_eq!((f.ch, f.min), (b'~', 4));
    let f = fence_open(b"`````` x").unwrap();
    assert_eq!((f.ch, f.min), (b'`', 6));
    let f = fence_open(b"```~~~").unwrap();
    assert_eq!((f.ch, f.min), (b'`', 3));
    assert!(fence_open(b"``").is_none());
    assert!(fence_open(b"~~").is_none());
    assert!(fence_open(b"`~`").is_none());
    assert!(fence_open(b"a```").is_none());
    assert!(fence_open(b"").is_none());
    assert!(fence_open(b"   ").is_none());
}

#[test]
fn fences_close() {
    let f = Fence { ch: b'`', min: 3 };
    assert!(fence_close(b"```", f));
    assert!(fence_close(b"````", f));
    assert!(fence_close(b"  ``` \t", f));
    assert!(!fence_close(b"``", f));
    assert!(!fence_close(b"```x", f));
    assert!(!fence_close(b"``` x", f));
    assert!(!fence_close(b"~~~", f));
    assert!(!fence_close(b"```\r", f));
    assert!(!fence_close(b"", f));
    let g = Fence { ch: b'~', min: 5 };
    assert!(fence_close(b"~~~~~", g));
    assert!(!fence_close(b"~~~~", g));
}
