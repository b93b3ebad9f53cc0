use reformahtml::mode::markdown_enabled;

#[test]
fn switch_off_wins() {
    assert!(!markdown_enabled(true, true, b"bs"));
    assert!(!markdown_enabled(true, false, b"bs"));
    assert!(!markdown_enabled(true, true, b"html"));
    assert!(!markdown_enabled(true, false, b""));
}

#[test]
fn switch_on_wins_over_the_extension() {
    assert!(markdown_enabled(false, true, b"html"));
    assert!(markdown_enabled(false, true, b""));
    assert!(markdown_enabled(false, true, b"bs"));
}

#[test]
fn extension_decides_without_switches() {
    assert!(markdown_enabled(false, false, b"bs"));
    assert!(markdown_enabled(false, false, b"BS"));
    assert!(markdown_enabled(false, false, b"Bs"));
    assert!(!markdown_enabled(false, false, b"html"));
    assert!(!markdown_enabled(false, false, b"b"));
    assert!(!markdown_enabled(false, false, b"bss"));
    assert!(!markdown_enabled(false, false, b".bs"));
    assert!(!markdown_enabled(false, false, b""));
}
