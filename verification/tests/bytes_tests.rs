use reformahtml::bytes::{
    append, append_range, contains_lf, eq_ignore_case, find_from, is_name_char, is_space_tab,
    is_ws, matches_ignore_ascii_case, skip_run, skip_run_back, start_after_last, to_lower,
    trim_spaces, Class,
};

#[test]
fn whitespace_is_space_tab_lf_cr() {
    for b in 0u8..=255 {
        assert_eq!(is_ws(b), b == b' ' || b == b'\t' || b == b'\n' || b == b'\r');
        assert_eq!(is_space_tab(b), b == b' ' || b == b'\t');
    }
}

#[test]
fn name_chars_are_alphanumerics_and_three_marks() {
    for b in 0u8..=255 {
        let expected = b.is_ascii_alphanumeric() || b == b'-' || b == b'_' || b == b':';
        assert_eq!(is_name_char(b), expected, "byte {}", b);
    }
}

#[test]
fn lower_case_touches_ascii_capitals_only() {
    for b in 0u8..=255 {
        assert_eq!(to_lower(b), b.to_ascii_lowercase());
    }
}

#[test]
fn comparison_ignores_ascii_case() {
    assert!(eq_ignore_case(b"DiV", b"div"));
    assert!(eq_ignore_case(b"", b""));
    assert!(!eq_ignore_case(b"div", b"di"));
    assert!(!eq_ignore_case(b"div", b"dib"));
    assert!(!eq_ignore_case(b"[", b"{"));
}

#[test]
fn membership_ignores_ascii_case() {
    let set: [&[u8]; 3] = [b"pre", b"script", b"style"];
    assert!(matches_ignore_ascii_case(b"SCRIPT", &set));
    assert!(matches_ignore_ascii_case(b"pre", &set));
    assert!(!matches_ignore_ascii_case(b"pr", &set));
    assert!(!matches_ignore_ascii_case(b"", &set));
    assert!(!matches_ignore_ascii_case(b"pre", &[]));
}

#[test]
fn runs_are_walked_in_both_directions() {
    let s = b"  \t\nab12 \r";
    assert_eq!(skip_run(s, 0, Class::SpaceTab), 3);
    assert_eq!(skip_run(s, 0, Class::Ws), 4);
    assert_eq!(skip_run(s, 0, Class::Fold), 4);
    assert_eq!(skip_run(s, 4, Class::Name), 8);
    assert_eq!(skip_run(s, 6, Class::Digit), 8);
    assert_eq!(skip_run(s, 4, Class::Only(b'a')), 5);
    assert_eq!(skip_run(s, 4, Class::Except(b'1')), 6);
    assert_eq!(skip_run(s, 4, Class::Bare), 8);
    assert_eq!(skip_run(s, 10, Class::Ws), 10);
    assert_eq!(skip_run_back(s, 10, Class::Ws), 8);
    assert_eq!(skip_run_back(s, 10, Class::SpaceTab), 10);
    assert_eq!(skip_run_back(s, 9, Class::Fold), 8);
    assert_eq!(skip_run_back(s, 8, Class::Digit), 6);
    assert_eq!(skip_run_back(s, 0, Class::Ws), 0);
    assert_eq!(skip_run(b"a/ /b", 1, Class::WsSlash), 4);
    assert_eq!(skip_run(b"ab>c", 0, Class::Bare), 2);
}

#[test]
fn line_feed_is_looked_for_in_a_range() {
    assert!(contains_lf(b"a\nb", 0, 3));
    assert!(contains_lf(b"a\nb", 1, 2));
    assert!(!contains_lf(b"a\nb", 0, 1));
    assert!(!contains_lf(b"a\nb", 2, 3));
    assert!(!contains_lf(b"a\nb", 1, 1));
    assert!(!contains_lf(b"a\rb", 0, 3));
}

#[test]
fn first_occurrence_is_found_from_an_index() {
    let s = b"abc<de<";
    assert_eq!(find_from(s, 0, b'<'), Some(3));
    assert_eq!(find_from(s, 3, b'<'), Some(3));
    assert_eq!(find_from(s, 4, b'<'), Some(6));
    assert_eq!(find_from(s, 7, b'<'), None);
    assert_eq!(find_from(s, 0, b'z'), None);
    assert_eq!(find_from(b"", 0, b'<'), None);
}

#[test]
fn line_start_is_behind_the_last_line_feed() {
    let s = b"ab\ncd\nef";
    assert_eq!(start_after_last(s, 8, b'\n'), 6);
    assert_eq!(start_after_last(s, 6, b'\n'), 6);
    assert_eq!(start_after_last(s, 5, b'\n'), 3);
    assert_eq!(start_after_last(s, 3, b'\n'), 3);
    assert_eq!(start_after_last(s, 2, b'\n'), 0);
    assert_eq!(start_after_last(s, 0, b'\n'), 0);
}

#[test]
fn appending_keeps_what_was_there() {
    let mut out = b"ab".to_vec();
    append(&mut out, b"cd");
    assert_eq!(out, b"abcd");
    append(&mut out, b"");
    assert_eq!(out, b"abcd");
    append_range(&mut out, b"012345", 2, 4);
    assert_eq!(out, b"abcd23");
    append_range(&mut out, b"012345", 6, 6);
    assert_eq!(out, b"abcd23");
}

#[test]
fn spaces_are_trimmed_at_both_ends() {
    let mut a = b"  a b  ".to_vec();
    trim_spaces(&mut a);
    assert_eq!(a, b"a b");
    let mut b = b"a b".to_vec();
    trim_spaces(&mut b);
    assert_eq!(b, b"a b");
    let mut c = b"    ".to_vec();
    trim_spaces(&mut c);
    assert_eq!(c, b"");
    let mut d = b"".to_vec();
    trim_spaces(&mut d);
    assert_eq!(d, b"");
    let mut e = b"\t a \n".to_vec();
    trim_spaces(&mut e);
    assert_eq!(e, b"\t a \n");
    let mut f = b" x".to_vec();
    trim_spaces(&mut f);
    assert_eq!(f, b"x");
}
