use reformahtml::driver::{copy_raw_text_until_end, transform};

fn plain(input: &str) -> String {
    let mut out = Vec::new();
    transform(input.as_bytes(), &mut out, false);
    String::from_utf8(out).unwrap()
}

fn markdown(input: &str) -> String {
    let mut out = Vec::new();
    transform(input.as_bytes(), &mut out, true);
    String::from_utf8(out).unwrap()
}

fn same_in_both_modes(input: &str) {
    assert_eq!(plain(input), input);
    assert_eq!(markdown(input), input);
}

#[test]
fn empty_input_gives_empty_output() {
    assert_eq!(plain(""), "");
    assert_eq!(markdown(""), "");
}

#[test]
fn output_is_appended() {
    let mut out = b"kept".to_vec();
    transform(b"a\nb<br>", &mut out, false);
    assert_eq!(out, b"kepta b<br>");
}

#[test]
fn text_in_block_elements_is_joined() {
    assert_eq!(plain("<div>\n  one\n  two\n</div>"), "<div>\n  one two\n</div>");
    assert_eq!(plain("<div>\n  text\n</div>"), "<div>\n  text\n</div>");
    assert_eq!(plain("<p>A</p>\n\n<p>B\nC</p>"), "<p>A</p>\n\n<p>B C</p>");
    assert_eq!(plain("<p>One <b>two</b>\nthree</p>"), "<p>One <b>two</b> three</p>");
    assert_eq!(
        plain("<li>\n  One\n  <b>two</b>\n</li>"),
        "<li>\n  One <b>two</b>\n</li>"
    );
}

#[test]
fn text_without_markup() {
    assert_eq!(plain("Hello\nworld\n"), "Hello world ");
    assert_eq!(markdown("Hello\nworld\n"), "Hello world\n");
    assert_eq!(plain("  \nfoo"), "   foo");
    assert_eq!(plain(" \n\n "), " \n\n ");
    assert_eq!(
        markdown("Intro\n\n* a\n  b\n* c\n\nOutro\nmore\n"),
        "Intro\n\n* a b\n* c\n\nOutro more\n"
    );
}

#[test]
fn line_break_before_an_inline_tag() {
    assert_eq!(plain("Hello\n<em>x</em>"), "Hello <em>x</em>");
    assert_eq!(plain("text\n  <em>x</em>"), "text <em>x</em>");
    assert_eq!(plain("<b>x</b>\n<i>y</i>"), "<b>x</b> <i>y</i>");
    assert_eq!(plain("<b>x</b>\n\n<i>y</i>"), "<b>x</b>\n\n<i>y</i>");
    assert_eq!(plain("<b>x</b>\n</i>"), "<b>x</b>\n</i>");
    assert_eq!(markdown("text\n<b>x</b>"), "text <b>x</b>");
}

#[test]
fn line_break_behind_a_block_start_tag_stays() {
    same_in_both_modes("<div>\n  <b>x</b>\n</div>");
    same_in_both_modes("<div>\n<em>x</em>\n</div>");
    same_in_both_modes("<ul>\n<li>\n<a href=\"x\">link</a>\n</li>\n</ul>");
}

#[test]
fn tags_are_rewritten_on_the_way() {
    assert_eq!(plain("<a\n   href='x'>t</a>"), "<a href='x'>t</a>");
    assert_eq!(plain("<p  class = \"a  b\" >x</p >"), "<p class = \"a  b\">x</p>");
    assert_eq!(plain("a<b\n>c"), "a<b>c");
}

#[test]
fn comments_in_the_flow_are_reflowed() {
    assert_eq!(plain("a <!-- c\n  d --> b"), "a <!-- c d --> b");
    assert_eq!(plain("text\n<!-- c -->y"), "text <!-- c -->y");
    assert_eq!(plain("<b>x</b>\n<!-- c -->y"), "<b>x</b>\n<!-- c -->y");
}

#[test]
fn comment_that_stands_alone_stays_with_the_whitespace_around_it() {
    assert_eq!(
        plain("a\n  <!-- c\n d -->\nb\nc"),
        "a\n  <!-- c\n d -->\nb c"
    );
    assert_eq!(
        markdown("one\ntwo\n\n<!-- note\n   here -->\n\n  three\n  four"),
        "one two\n\n<!-- note\n   here -->\n\n  three four"
    );
    same_in_both_modes("<div>\n  <!--  a   b  -->\n</div>");
    same_in_both_modes("<!-- x\ny -->\n");
}

#[test]
fn comment_that_stands_alone_before_an_inline_tag_is_joined_to_it() {
    assert_eq!(plain("<!-- c -->\n<em>x</em>"), "<!-- c --> <em>x</em>");
}

#[test]
fn raw_text_is_left_alone() {
    same_in_both_modes("<pre>a\n   b</pre>");
    same_in_both_modes("<PRE>a\n b</pre>");
    same_in_both_modes("<script>if (a<b) {\n  x = \"</b>\";\n}</script>");
    same_in_both_modes("<style>\na   {  }\n\n</style>");
    same_in_both_modes("<textarea>\n a <b> \n<!-- x\n y --></textarea>");
    same_in_both_modes("<xmp><pre>\n</pre>\n\n</xmp>");
    same_in_both_modes("<wpt>\n  a.html\n  b.html\n</wpt>");
    same_in_both_modes("<pre>x</pre>\n<pre>y</pre>");
}

#[test]
fn raw_text_tags_are_rewritten() {
    assert_eq!(plain("<pre>x</pre\n>"), "<pre>x</pre>");
    assert_eq!(plain("<pre  class='a'>x\n y</pre>"), "<pre class='a'>x\n y</pre>");
    assert_eq!(plain("<script>x</b>y</script >"), "<script>x</b>y</script>");
}

#[test]
fn raw_text_ends_at_the_first_end_tag_of_its_name() {
    assert_eq!(
        plain("<script>a\n<script>b\n</script>c\nd</script>e\nf"),
        "<script>a\n<script>b\n</script>c d</script>e f"
    );
    assert_eq!(plain("<textarea>\n a</textarea>x\ny"), "<textarea>\n a</textarea>x y");
}

#[test]
fn self_closing_raw_text_tag_opens_nothing() {
    assert_eq!(plain("<script/>a\nb"), "<script/>a b");
}

#[test]
fn marked_elements_are_left_alone() {
    same_in_both_modes("<div data-noreformat>\n  raw   stuff\n</div>");
    same_in_both_modes("<div data-noreformat><!-- a\n b --> x\ny <b\n class=q >z</b ></div>");
    same_in_both_modes("<div data-noreformat><pre>x\n</pre >y\nz</div>");
    same_in_both_modes("<p DATA-NOREFORMAT=\"\">a\n\n\nb<br>\nc</p>");
    same_in_both_modes("<section  data-noreformat ><div>a\nb</div>c\nd</section >");
}

#[test]
fn reflow_starts_again_behind_a_marked_element() {
    assert_eq!(
        plain("<div data-noreformat>a\nb</div>\nc\nd"),
        "<div data-noreformat>a\nb</div> c d"
    );
    assert_eq!(
        plain("<div data-noreformat><span><b>x\ny</div>z\nw"),
        "<div data-noreformat><span><b>x\ny</div>z w"
    );
    assert_eq!(
        plain("<img data-noreformat  alt='a  b'>x\ny"),
        "<img data-noreformat  alt='a  b'>x y"
    );
    assert_eq!(
        plain("<div>a\nb</div data-noreformat>c\nd"),
        "<div>a b</div data-noreformat>c d"
    );
}

#[test]
fn end_tag_without_start_tag_closes_nothing() {
    assert_eq!(
        plain("<div data-noreformat>a\nb</span>c\nd</div>e\nf"),
        "<div data-noreformat>a\nb</span>c\nd</div>e f"
    );
    assert_eq!(plain("</div>a\nb"), "</div>a b");
}

#[test]
fn start_tags_close_elements_by_implication() {
    assert_eq!(
        plain("<p data-noreformat>a\nb<div>c\nd</div>"),
        "<p data-noreformat>a\nb<div>c d</div>"
    );
    assert_eq!(
        plain("<ul><li data-noreformat>a\nb<li>c\nd</ul>"),
        "<ul><li data-noreformat>a\nb<li>c d</ul>"
    );
    assert_eq!(
        plain("<dl><dt data-noreformat>a\nb<dd>c\nd</dl>"),
        "<dl><dt data-noreformat>a\nb<dd>c d</dl>"
    );
    assert_eq!(
        plain("<p data-noreformat>a\nb<span>c\nd</span>"),
        "<p data-noreformat>a\nb<span>c\nd</span>"
    );
}

#[test]
fn line_feed_behind_br_is_written_with_it() {
    same_in_both_modes("<br>\nNext");
    same_in_both_modes("<br/>\nx");
    assert_eq!(plain("a<br>\n  b\n c"), "a<br>\n  b c");
    assert_eq!(plain("<BR>\n\n  x\n y"), "<BR>\n x y");
}

#[test]
fn br_holds_the_whitespace_behind_it() {
    same_in_both_modes("a<br>b");
    same_in_both_modes("a<br>  \n  b");
    assert_eq!(plain("a<br> \n b\nc"), "a<br> \n b c");
    assert_eq!(plain("a<br><b> \n x</b>"), "a<br><b> \n x</b>");
    assert_eq!(plain("a</br>\nb"), "a</br> b");
}

#[test]
fn markup_that_never_ends_is_written_as_it_is() {
    same_in_both_modes("a <b foo");
    assert_eq!(plain("a\nb <b class='x>c\nd</b>"), "a b <b class='x>c\nd</b>");
    assert_eq!(markdown("a\nb <b class='x>c\nd</b>"), "a b <b class='x>c\nd</b>");
    same_in_both_modes("x <!-- foo\nbar");
    same_in_both_modes("<script>a\n  b");
    same_in_both_modes("<pre>a\n</pr");
    same_in_both_modes("<div data-noreformat>a\n  b");
    same_in_both_modes("<");
    assert_eq!(plain("a\nb<c"), "a b<c");
    assert_eq!(plain("<p>a\nb</p>\n<!-- c\nd"), "<p>a b</p>\n<!-- c\nd");
}

#[test]
fn bytes_that_are_no_text_pass_through() {
    let input: &[u8] = &[0xff, b'\n', 0xfe, b'<', b'b', b'>', 0x00, 0xc3, b'\n', 0x80];
    let mut out = Vec::new();
    transform(input, &mut out, false);
    assert_eq!(out, [0xff, b' ', 0xfe, b'<', b'b', b'>', 0x00, 0xc3, b' ', 0x80]);
    let mut out = Vec::new();
    transform(input, &mut out, true);
    assert_eq!(out, [0xff, b' ', 0xfe, b'<', b'b', b'>', 0x00, 0xc3, b' ', 0x80]);
}

#[test]
fn markdown_inside_elements() {
    assert_eq!(
        markdown("<p>\nSome *text*\nhere\n</p>"),
        "<p>\nSome *text* here\n</p>"
    );
    assert_eq!(
        markdown("<div>\n* a\n  b\n* c\n\n```\nx\n y\n```\n</div>"),
        "<div>\n* a b\n* c\n\n```\nx\n y\n```\n</div>"
    );
    assert_eq!(markdown("</b>\ntext more"), "</b> text more");
}

#[test]
fn definition_lines_keep_their_lines_in_markdown() {
    assert_eq!(markdown("<dl>\n: term\n:: desc\n</dl>"), "<dl>\n: term\n:: desc\n</dl>");
    assert_eq!(plain("<dl>\n: term\n:: desc\n</dl>"), "<dl>\n: term :: desc\n</dl>");
    assert_eq!(
        markdown("<dl>\n  : <dfn>term</dfn>\n  :: desc\n     more\n</dl>"),
        "<dl>\n  : <dfn>term</dfn>\n  :: desc more\n</dl>"
    );
    assert_eq!(markdown("</b>\n  : term\n"), "</b>\n  : term\n");
    assert_eq!(
        markdown("Intro text\n  : term\n  :: desc <b>x</b>"),
        "Intro text\n  : term\n  :: desc <b>x</b>"
    );
    assert_eq!(plain("</b>\n  : term\n"), "</b> : term ");
}

#[test]
fn second_pass_changes_nothing_in_plain_mode() {
    for input in [
        "<p>Hello\nworld</p>",
        "Hello\nworld\n",
        "  \nfoo",
        "a <!-- c\n  d --> b",
        "<a\n   href='x'>t</a>\n<b>u</b>",
        "<div>\n  one\n  two\n</div>\n<pre>a\n b</pre\n>",
        "<li>\n  One\n  <b>two</b>\n</li>",
        "a<br>\n  b\n c",
        "x\ny <b z",
    ] {
        let once = plain(input);
        assert_eq!(plain(&once), once, "{:?}", input);
    }
}

#[test]
fn second_pass_reflows_a_comment_that_no_longer_stands_alone() {
    let once = plain("<!-- c\nd -->\n<em>x</em>");
    assert_eq!(once, "<!-- c\nd --> <em>x</em>");
    assert_eq!(plain(&once), "<!-- c d --> <em>x</em>");
}

#[test]
fn raw_text_is_copied_up_to_its_end_tag() {
    let src = b"<pre>a\n <b\n>x</i >y</PRE\n>z";
    let mut out = Vec::new();
    assert_eq!(copy_raw_text_until_end(src, 5, b"pre", false, &mut out), (26, true));
    assert_eq!(out, b"a\n <b\n>x</i >y</PRE>");
    let mut out = Vec::new();
    assert_eq!(copy_raw_text_until_end(src, 5, b"pre", true, &mut out), (26, true));
    assert_eq!(out, b"a\n <b\n>x</i >y</PRE\n>");
    let mut out = Vec::new();
    assert_eq!(copy_raw_text_until_end(src, 5, b"i", false, &mut out), (18, true));
    assert_eq!(out, b"a\n <b\n>x</i>");
}

#[test]
fn raw_text_without_end_tag_is_copied_to_the_end() {
    let src = b"<pre>a\n</b>x</pre";
    let mut out = Vec::new();
    assert_eq!(copy_raw_text_until_end(src, 5, b"pre", false, &mut out), (17, false));
    assert_eq!(out, b"a\n</b>x</pre");
    let mut out = Vec::new();
    assert_eq!(copy_raw_text_until_end(src, 5, b"script", false, &mut out), (17, false));
    assert_eq!(out, b"a\n</b>x</pre");
    let mut out = Vec::new();
    assert_eq!(copy_raw_text_until_end(b"a</", 0, b"pre", false, &mut out), (3, false));
    assert_eq!(out, b"a</");
    let mut out = Vec::new();
    assert_eq!(copy_raw_text_until_end(src, 17, b"pre", false, &mut out), (17, false));
    assert_eq!(out, b"");
    let mut out = Vec::new();
    assert_eq!(copy_raw_text_until_end(src, 40, b"pre", false, &mut out), (17, false));
    assert_eq!(out, b"");
}
