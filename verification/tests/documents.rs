use reformahtml::driver::transform;

fn run(input: &[u8], markdown: bool) -> Vec<u8> {
    let mut out = Vec::new();
    transform(input, &mut out, markdown);
    out
}

fn show(bytes: &[u8]) -> String {
    String::from_utf8_lossy(bytes).into_owned()
}

#[test]
fn paragraph_lines_are_joined() {
    assert_eq!(show(&run(b"<p>Hello\nworld</p>", false)), "<p>Hello world</p>");
}

#[test]
fn pre_is_left_alone_in_both_modes() {
    assert_eq!(show(&run(b"<pre>a\n   b</pre>", false)), "<pre>a\n   b</pre>");
    assert_eq!(show(&run(b"<pre>a\n   b</pre>", true)), "<pre>a\n   b</pre>");
}

#[test]
fn inline_comment_is_reflowed_in_both_modes() {
    assert_eq!(show(&run(b"x <!--\nnote\n--> y", false)), "x <!-- note --> y");
    assert_eq!(show(&run(b"x <!--\nnote\n--> y", true)), "x <!-- note --> y");
}

#[test]
fn list_item_takes_its_continuation_line() {
    assert_eq!(
        show(&run(b"* item one\n  continued\n* item two\n", true)),
        "* item one continued\n* item two\n"
    );
}

#[test]
fn marked_element_is_left_alone_in_both_modes() {
    let input = b"<div data-noreformat>\n  raw   stuff\n</div>";
    assert_eq!(show(&run(input, false)), show(input));
    assert_eq!(show(&run(input, true)), show(input));
}

#[test]
fn line_feed_behind_br_stays() {
    assert_eq!(show(&run(b"<br>\nNext", false)), "<br>\nNext");
    assert_eq!(show(&run(b"<br>\nNext", true)), "<br>\nNext");
}
