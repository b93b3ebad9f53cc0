use reformahtml::markdown::{markdown_into, reflow_markdown_text};

fn md(text: &str) -> String {
    String::from_utf8(reflow_markdown_text(text.as_bytes())).unwrap()
}

#[test]
fn paragraph_lines_join() {
    assert_eq!(md("line one\nline two\n"), "line one line two\n");
    assert_eq!(md("line one\nline two"), "line one line two");
    assert_eq!(md("a\nb\nc\nd\n"), "a b c d\n");
    assert_eq!(md("alone\n"), "alone\n");
    assert_eq!(md("alone"), "alone");
}

#[test]
fn paragraph_lines_lose_the_whitespace_at_the_join() {
    assert_eq!(md("line one  \n   line two"), "line one line two");
    assert_eq!(md("a \t\nb"), "a b");
    assert_eq!(md("a\n  b  \n  c"), "a b   c");
    assert_eq!(md("  indented para\ncontinues\n"), "  indented para continues\n");
    assert_eq!(md("alone  \n\nnext"), "alone\n\nnext");
    assert_eq!(md("last  "), "last");
}

#[test]
fn blank_lines_stay() {
    assert_eq!(md("a\n\nb\n"), "a\n\nb\n");
    assert_eq!(md("a\nb\n\n\nc\nd"), "a b\n\n\nc d");
    assert_eq!(md("\n\n"), "\n\n");
    assert_eq!(md("a\n  \t\nb"), "a\n  \t\nb");
    assert_eq!(md("a\n\u{a0}\nb"), "a\n\u{a0}\nb");
    assert_eq!(md("a\n\r\nb"), "a\n\r\nb");
    assert_eq!(md(""), "");
}

#[test]
fn bullet_items_take_their_continuation_lines() {
    assert_eq!(md("* item one\n  continued\n* item two\n"), "* item one continued\n* item two\n");
    assert_eq!(md("- a\nb\nc\n- d"), "- a b c\n- d");
    assert_eq!(md("* item  \n\tcont  \n"), "* item cont  \n");
    assert_eq!(md("  *   deep\n      more\n"), "  * deep more\n");
    assert_eq!(md("* a\n\n  b\n"), "* a\n\n  b\n");
    assert_eq!(md("* \nx"), "*  x");
}

#[test]
fn ordered_items_take_their_continuation_lines() {
    assert_eq!(md("1. first\nmore\n2. second"), "1. first more\n2. second");
    assert_eq!(md("10.  ten\n     and on\n"), "10. ten and on\n");
}

#[test]
fn definitions_take_their_continuation_lines() {
    assert_eq!(md(": term\n:: desc\n   cont\n"), ": term\n:: desc cont\n");
    assert_eq!(md(":\nterm"), ": term");
    assert_eq!(md("::\ndesc\n"), ":: desc\n");
    assert_eq!(md(": a\nb\n: c\nd\n"), ": a b\n: c d\n");
}

#[test]
fn headings_stand_for_themselves() {
    assert_eq!(md("text\n# Heading\nmore\n"), "text\n# Heading\nmore\n");
    assert_eq!(md("# One\n## Two\n"), "# One\n## Two\n");
    assert_eq!(md("#  spaced  \ntext\nmore"), "#  spaced  \ntext more");
    assert_eq!(md("#nospace\ntext"), "#nospace text");
}

#[test]
fn setext_underline_counts_behind_paragraph_text_only() {
    assert_eq!(md("Title\n=====\nbody\ntext\n"), "Title\n=====\nbody text\n");
    assert_eq!(md("Title\n--\nbody\n"), "Title\n--\nbody\n");
    assert_eq!(md("=====\nbody\n"), "===== body\n");
    assert_eq!(md("\n==\nbody"), "\n== body");
    assert_eq!(md("# H\n==\nbody"), "# H\n== body");
    assert_eq!(md("a\nb\n==\n"), "a b\n==\n");
}

#[test]
fn rules_and_block_quotes_stand_for_themselves() {
    assert_eq!(md("---\n"), "---\n");
    assert_eq!(md("para\n---\nnext"), "para\n---\nnext");
    assert_eq!(md("a\n* * *\nb"), "a\n* * * b");
    assert_eq!(md("a\n***\nb"), "a\n***\nb");
    assert_eq!(md("a\n___\nb\nc"), "a\n___\nb c");
    assert_eq!(md("> quote\ntext\nmore\n"), "> quote\ntext more\n");
    assert_eq!(md("para\n> quote\n> more\n"), "para\n> quote\n> more\n");
    assert_eq!(md("a\n  ---  \nb"), "a\n  ---  \nb");
}

#[test]
fn fenced_code_stays() {
    assert_eq!(
        md("```\ncode  here\n\n  more\n```\nafter\nlines\n"),
        "```\ncode  here\n\n  more\n```\nafter lines\n"
    );
    assert_eq!(md("~~~~\ncode\n~~~\nstill\n~~~~\nout\nside"), "~~~~\ncode\n~~~\nstill\n~~~~\nout side");
    assert_eq!(md("```\n* a\n  b\n# c\n```"), "```\n* a\n  b\n# c\n```");
    assert_eq!(md("```\ncode\n~~~\nmore\n"), "```\ncode\n~~~\nmore\n");
}

#[test]
fn fence_that_never_closes_takes_the_rest() {
    assert_eq!(md("```\nunclosed\ntext"), "```\nunclosed\ntext");
    assert_eq!(md("a\nb\n```rust\nx\ny\n"), "a b\n```rust\nx\ny\n");
}

#[test]
fn paragraph_before_a_fence_keeps_its_line() {
    assert_eq!(md("text\n```\ncode\n```\n"), "text\n```\ncode\n```\n");
    assert_eq!(md("a\nb\n~~~\nc\n~~~"), "a b\n~~~\nc\n~~~");
}

#[test]
fn multi_byte_text_passes_through() {
    assert_eq!(md("早上\n好\n"), "早上 好\n");
    assert_eq!(md("* é\n  ü\n"), "* é ü\n");
}

#[test]
fn markdown_reflow_is_appended() {
    let mut out = b"[".to_vec();
    markdown_into(b"a\nb\n", &mut out);
    assert_eq!(out, b"[a b\n");
}
