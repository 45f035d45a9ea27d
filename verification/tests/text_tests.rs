use symmetrix::text::truncate;

#[test]
fn short_text_is_padded() {
    assert_eq!(truncate("abc", 6), "abc   ");
    assert_eq!(truncate("abcdef", 6), "abcdef");
    assert_eq!(truncate("", 2), "  ");
}

#[test]
fn long_text_is_cut_with_an_ellipsis() {
    assert_eq!(truncate("abcdefghij", 6), "abc...");
    assert_eq!(truncate("abcd", 3), "...");
}

#[test]
fn padding_counts_characters() {
    // 6 bytes, 5 characters
    assert_eq!(truncate("héllo", 6), "héllo ");
    assert_eq!(truncate("héllo wörld", 8), "héll...");
}
