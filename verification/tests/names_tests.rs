use reformahtml::names::{closes_paragraph, is_inline, is_raw_text, is_structural, is_void};

#[test]
fn inline_names() {
    for name in [
        "a", "abbr", "b", "bdi", "bdo", "cite", "code", "data", "del", "dfn", "em", "i", "ins",
        "kbd", "mark", "q", "s", "samp", "small", "span", "strong", "sub", "sup", "time", "u",
        "var", "ref",
    ] {
        assert!(is_inline(name.as_bytes()), "{}", name);
        assert!(is_inline(name.to_uppercase().as_bytes()), "{}", name);
        assert!(!is_structural(name.as_bytes()), "{}", name);
    }
    assert!(!is_inline(b"div"));
    assert!(!is_inline(b"img"));
    assert!(!is_inline(b""));
    assert!(!is_inline(b"spa"));
    assert!(!is_inline(b"spans"));
}

#[test]
fn void_names() {
    for name in [
        "area", "base", "br", "col", "embed", "hr", "img", "input", "link", "meta", "param",
        "source", "track", "wbr",
    ] {
        assert!(is_void(name.as_bytes()), "{}", name);
        assert!(is_void(name.to_uppercase().as_bytes()), "{}", name);
    }
    assert!(!is_void(b"div"));
    assert!(!is_void(b"b"));
    assert!(!is_void(b""));
}

#[test]
fn raw_text_names() {
    for name in ["pre", "textarea", "script", "style", "xmp", "wpt"] {
        assert!(is_raw_text(name.as_bytes()), "{}", name);
        assert!(is_raw_text(name.to_uppercase().as_bytes()), "{}", name);
        assert!(!is_void(name.as_bytes()), "{}", name);
    }
    assert!(!is_raw_text(b"code"));
    assert!(!is_raw_text(b"pres"));
}

#[test]
fn block_level_names() {
    for name in [
        "address", "article", "aside", "blockquote", "details", "dialog", "div", "dl", "dt", "dd",
        "fieldset", "figcaption", "figure", "footer", "form", "h1", "h2", "h3", "h4", "h5", "h6",
        "header", "hgroup", "hr", "main", "menu", "nav", "ol", "p", "pre", "search", "section",
        "table", "thead", "tbody", "tfoot", "tr", "td", "th", "caption", "colgroup", "ul", "li",
        "optgroup", "option", "ruby", "rt", "rp", "foreignobject",
    ] {
        assert!(is_structural(name.as_bytes()), "{}", name);
        assert!(is_structural(name.to_uppercase().as_bytes()), "{}", name);
    }
    assert!(is_structural(b"foreignObject"));
    assert!(!is_structural(b"span"));
    assert!(!is_structural(b"h7"));
    assert!(!is_structural(b"br"));
    assert!(!is_structural(b""));
}

#[test]
fn paragraph_closing_names() {
    for name in [
        "address", "article", "aside", "blockquote", "center", "details", "dialog", "dir", "div",
        "dl", "fieldset", "figcaption", "figure", "footer", "header", "hgroup", "main", "menu",
        "nav", "ol", "p", "search", "section", "summary", "ul",
    ] {
        assert!(closes_paragraph(name.as_bytes()), "{}", name);
    }
    assert!(!closes_paragraph(b"span"));
    assert!(!closes_paragraph(b"li"));
    assert!(!closes_paragraph(b"table"));
    assert!(!closes_paragraph(b"h1"));
}
