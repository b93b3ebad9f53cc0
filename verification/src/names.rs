//! The name tables: which elements are inline, void, raw text, block level,
//! and which close an open paragraph. Membership ignores ASCII case.

use crate::bytes::{
    lower, lowered, matches_any, matches_ignore_ascii_case, same_ignoring_case, views, word,
};
use vstd::string::is_ascii_spec_bytes;
use vstd::prelude::*;

verus! {

/// Names of elements that flow within a line of text.
pub open spec fn inline_names() -> Seq<Seq<u8>> {
    seq![
        word("a"), word("abbr"), word("b"), word("bdi"), word("bdo"), word("cite"),
        word("code"), word("data"), word("del"), word("dfn"), word("em"), word("i"),
        word("ins"), word("kbd"), word("mark"), word("q"), word("s"), word("samp"),
        word("small"), word("span"), word("strong"), word("sub"), word("sup"), word("time"),
        word("u"), word("var"), word("ref"),
    ]
}

/// The name of an inline element.
#[verifier::opaque]
pub open spec fn inline_name(name: Seq<u8>) -> bool {
    matches_any(name, inline_names())
}

/// Whether `name` names an inline element.
pub fn is_inline(name: &[u8]) -> (r: bool)
    ensures
        r == inline_name(name@),
{
    reveal(inline_name);
    let set: [&[u8]; 27] = [
        "a".as_bytes(), "abbr".as_bytes(), "b".as_bytes(), "bdi".as_bytes(), "bdo".as_bytes(),
        "cite".as_bytes(), "code".as_bytes(), "data".as_bytes(), "del".as_bytes(),
        "dfn".as_bytes(), "em".as_bytes(), "i".as_bytes(), "ins".as_bytes(), "kbd".as_bytes(),
        "mark".as_bytes(), "q".as_bytes(), "s".as_bytes(), "samp".as_bytes(),
        "small".as_bytes(), "span".as_bytes(), "strong".as_bytes(), "sub".as_bytes(),
        "sup".as_bytes(), "time".as_bytes(), "u".as_bytes(), "var".as_bytes(),
        "ref".as_bytes(),
    ];
    assert(views(set@) =~= inline_names());
    matches_ignore_ascii_case(name, &set)
}

/// Names of elements that have neither content nor an end tag.
pub open spec fn void_names() -> Seq<Seq<u8>> {
    seq![
        word("area"), word("base"), word("br"), word("col"), word("embed"), word("hr"),
        word("img"), word("input"), word("link"), word("meta"), word("param"), word("source"),
        word("track"), word("wbr"),
    ]
}

/// The name of a void element.
#[verifier::opaque]
pub open spec fn void_name(name: Seq<u8>) -> bool {
    matches_any(name, void_names())
}

/// Whether `name` names a void element.
pub fn is_void(name: &[u8]) -> (r: bool)
    ensures
        r == void_name(name@),
{
    reveal(void_name);
    let set: [&[u8]; 14] = [
        "area".as_bytes(), "base".as_bytes(), "br".as_bytes(), "col".as_bytes(),
        "embed".as_bytes(), "hr".as_bytes(), "img".as_bytes(), "input".as_bytes(),
        "link".as_bytes(), "meta".as_bytes(), "param".as_bytes(), "source".as_bytes(),
        "track".as_bytes(), "wbr".as_bytes(),
    ];
    assert(views(set@) =~= void_names());
    matches_ignore_ascii_case(name, &set)
}

/// Names of elements whose content is copied as it stands up to their end tag.
pub open spec fn raw_text_names() -> Seq<Seq<u8>> {
    seq![
        word("pre"), word("textarea"), word("script"), word("style"), word("xmp"), word("wpt"),
    ]
}

/// The name of a raw-text element.
#[verifier::opaque]
pub open spec fn raw_text_name(name: Seq<u8>) -> bool {
    matches_any(name, raw_text_names())
}

/// Whether `name` names a raw-text element.
pub fn is_raw_text(name: &[u8]) -> (r: bool)
    ensures
        r == raw_text_name(name@),
{
    reveal(raw_text_name);
    let set: [&[u8]; 6] = [
        "pre".as_bytes(), "textarea".as_bytes(), "script".as_bytes(), "style".as_bytes(),
        "xmp".as_bytes(), "wpt".as_bytes(),
    ];
    assert(views(set@) =~= raw_text_names());
    matches_ignore_ascii_case(name, &set)
}

/// Names of elements that mark a boundary of the layout.
pub open spec fn structural_names() -> Seq<Seq<u8>> {
    seq![
        word("address"), word("article"), word("aside"), word("blockquote"), word("details"),
        word("dialog"), word("div"), word("dl"), word("dt"), word("dd"), word("fieldset"),
        word("figcaption"), word("figure"), word("footer"), word("form"), word("h1"),
        word("h2"), word("h3"), word("h4"), word("h5"), word("h6"), word("header"),
        word("hgroup"), word("hr"), word("main"), word("menu"), word("nav"), word("ol"),
        word("p"), word("pre"), word("search"), word("section"), word("table"), word("thead"),
        word("tbody"), word("tfoot"), word("tr"), word("td"), word("th"), word("caption"),
        word("colgroup"), word("ul"), word("li"), word("optgroup"), word("option"),
        word("ruby"), word("rt"), word("rp"), word("foreignobject"),
    ]
}

/// The name of a block-level element.
#[verifier::opaque]
pub open spec fn structural_name(name: Seq<u8>) -> bool {
    matches_any(name, structural_names())
}

/// Whether `name` names a block-level element.
pub fn is_structural(name: &[u8]) -> (r: bool)
    ensures
        r == structural_name(name@),
{
    reveal(structural_name);
    let set: [&[u8]; 49] = [
        "address".as_bytes(), "article".as_bytes(), "aside".as_bytes(),
        "blockquote".as_bytes(), "details".as_bytes(), "dialog".as_bytes(), "div".as_bytes(),
        "dl".as_bytes(), "dt".as_bytes(), "dd".as_bytes(), "fieldset".as_bytes(),
        "figcaption".as_bytes(), "figure".as_bytes(), "footer".as_bytes(), "form".as_bytes(),
        "h1".as_bytes(), "h2".as_bytes(), "h3".as_bytes(), "h4".as_bytes(), "h5".as_bytes(),
        "h6".as_bytes(), "header".as_bytes(), "hgroup".as_bytes(), "hr".as_bytes(),
        "main".as_bytes(), "menu".as_bytes(), "nav".as_bytes(), "ol".as_bytes(),
        "p".as_bytes(), "pre".as_bytes(), "search".as_bytes(), "section".as_bytes(),
        "table".as_bytes(), "thead".as_bytes(), "tbody".as_bytes(), "tfoot".as_bytes(),
        "tr".as_bytes(), "td".as_bytes(), "th".as_bytes(), "caption".as_bytes(),
        "colgroup".as_bytes(), "ul".as_bytes(), "li".as_bytes(), "optgroup".as_bytes(),
        "option".as_bytes(), "ruby".as_bytes(), "rt".as_bytes(), "rp".as_bytes(),
        "foreignobject".as_bytes(),
    ];
    assert(views(set@) =~= structural_names());
    matches_ignore_ascii_case(name, &set)
}

/// Names of elements whose start tag closes an open `p`.
pub open spec fn paragraph_closing_names() -> Seq<Seq<u8>> {
    seq![
        word("address"), word("article"), word("aside"), word("blockquote"), word("center"),
        word("details"), word("dialog"), word("dir"), word("div"), word("dl"),
        word("fieldset"), word("figcaption"), word("figure"), word("footer"), word("header"),
        word("hgroup"), word("main"), word("menu"), word("nav"), word("ol"), word("p"),
        word("search"), word("section"), word("summary"), word("ul"),
    ]
}

/// The name of an element whose start tag closes an open `p`.
#[verifier::opaque]
pub open spec fn paragraph_closing_name(name: Seq<u8>) -> bool {
    matches_any(name, paragraph_closing_names())
}

/// Whether the start tag of the element `name` closes an open `p`.
pub fn closes_paragraph(name: &[u8]) -> (r: bool)
    ensures
        r == paragraph_closing_name(name@),
{
    reveal(paragraph_closing_name);
    let set: [&[u8]; 25] = [
        "address".as_bytes(), "article".as_bytes(), "aside".as_bytes(),
        "blockquote".as_bytes(), "center".as_bytes(), "details".as_bytes(),
        "dialog".as_bytes(), "dir".as_bytes(), "div".as_bytes(), "dl".as_bytes(),
        "fieldset".as_bytes(), "figcaption".as_bytes(), "figure".as_bytes(),
        "footer".as_bytes(), "header".as_bytes(), "hgroup".as_bytes(), "main".as_bytes(),
        "menu".as_bytes(), "nav".as_bytes(), "ol".as_bytes(), "p".as_bytes(),
        "search".as_bytes(), "section".as_bytes(), "summary".as_bytes(), "ul".as_bytes(),
    ];
    assert(views(set@) =~= paragraph_closing_names());
    matches_ignore_ascii_case(name, &set)
}

/// How long each name of a raw-text element is, and how it starts.
proof fn lemma_raw_text_words()
    ensures
        word("pre").len() == 3 && word("pre")[0] == 0x70 && word("pre")[1] == 0x72,
        word("textarea").len() == 8 && word("textarea")[0] == 0x74 && word("textarea")[1] == 0x65,
        word("script").len() == 6 && word("script")[0] == 0x73 && word("script")[1] == 0x63,
        word("style").len() == 5 && word("style")[0] == 0x73 && word("style")[1] == 0x74,
        word("xmp").len() == 3 && word("xmp")[0] == 0x78 && word("xmp")[1] == 0x6d,
        word("wpt").len() == 3 && word("wpt")[0] == 0x77 && word("wpt")[1] == 0x70,
{
    reveal_strlit("pre");
    is_ascii_spec_bytes("pre");
    reveal_strlit("textarea");
    is_ascii_spec_bytes("textarea");
    reveal_strlit("script");
    is_ascii_spec_bytes("script");
    reveal_strlit("style");
    is_ascii_spec_bytes("style");
    reveal_strlit("xmp");
    is_ascii_spec_bytes("xmp");
    reveal_strlit("wpt");
    is_ascii_spec_bytes("wpt");
}

/// How long each name of a void element is, and how it starts.
proof fn lemma_void_words()
    ensures
        word("area").len() == 4 && word("area")[0] == 0x61 && word("area")[1] == 0x72,
        word("base").len() == 4 && word("base")[0] == 0x62 && word("base")[1] == 0x61,
        word("br").len() == 2 && word("br")[0] == 0x62 && word("br")[1] == 0x72,
        word("col").len() == 3 && word("col")[0] == 0x63 && word("col")[1] == 0x6f,
        word("embed").len() == 5 && word("embed")[0] == 0x65 && word("embed")[1] == 0x6d,
        word("hr").len() == 2 && word("hr")[0] == 0x68 && word("hr")[1] == 0x72,
        word("img").len() == 3 && word("img")[0] == 0x69 && word("img")[1] == 0x6d,
        word("input").len() == 5 && word("input")[0] == 0x69 && word("input")[1] == 0x6e,
        word("link").len() == 4 && word("link")[0] == 0x6c && word("link")[1] == 0x69,
        word("meta").len() == 4 && word("meta")[0] == 0x6d && word("meta")[1] == 0x65,
        word("param").len() == 5 && word("param")[0] == 0x70 && word("param")[1] == 0x61,
        word("source").len() == 6 && word("source")[0] == 0x73 && word("source")[1] == 0x6f,
        word("track").len() == 5 && word("track")[0] == 0x74 && word("track")[1] == 0x72,
        word("wbr").len() == 3 && word("wbr")[0] == 0x77 && word("wbr")[1] == 0x62,
{
    reveal_strlit("area");
    is_ascii_spec_bytes("area");
    reveal_strlit("base");
    is_ascii_spec_bytes("base");
    reveal_strlit("br");
    is_ascii_spec_bytes("br");
    reveal_strlit("col");
    is_ascii_spec_bytes("col");
    reveal_strlit("embed");
    is_ascii_spec_bytes("embed");
    reveal_strlit("hr");
    is_ascii_spec_bytes("hr");
    reveal_strlit("img");
    is_ascii_spec_bytes("img");
    reveal_strlit("input");
    is_ascii_spec_bytes("input");
    reveal_strlit("link");
    is_ascii_spec_bytes("link");
    reveal_strlit("meta");
    is_ascii_spec_bytes("meta");
    reveal_strlit("param");
    is_ascii_spec_bytes("param");
    reveal_strlit("source");
    is_ascii_spec_bytes("source");
    reveal_strlit("track");
    is_ascii_spec_bytes("track");
    reveal_strlit("wbr");
    is_ascii_spec_bytes("wbr");
}

/// How long a name is and how it starts, up to ASCII case.
spec fn name_start(n: Seq<u8>) -> (nat, u8, u8) {
    (n.len(), lower(n[0]), lower(n[1]))
}

/// Names that are equal up to ASCII case are as long as each other and
/// start alike.
proof fn lemma_same_start(a: Seq<u8>, b: Seq<u8>)
    requires
        same_ignoring_case(a, b),
        b.len() >= 2,
    ensures
        name_start(a) == name_start(b),
{
    assert(lowered(a).len() == lowered(b).len());
    assert(lowered(a)[0] == lowered(b)[0]);
    assert(lowered(a)[1] == lowered(b)[1]);
}

/// No raw-text element is a void element: the start tag of a raw-text
/// element opens an element.
pub proof fn lemma_raw_text_not_void(n: Seq<u8>)
    requires
        raw_text_name(n),
    ensures
        !void_name(n),
{
    reveal(raw_text_name);
    reveal(void_name);
    lemma_raw_text_words();
    lemma_void_words();
    let k = choose|k: int|
        0 <= k < raw_text_names().len() && same_ignoring_case(n, #[trigger] raw_text_names()[k]);
    lemma_same_start(n, raw_text_names()[k]);
    if void_name(n) {
        let j = choose|j: int|
            0 <= j < void_names().len() && same_ignoring_case(n, #[trigger] void_names()[j]);
        lemma_same_start(n, void_names()[j]);
    }
}

} // verus!
