use kartei::view::{field, heading, indented, skipped_count};

#[test]
fn skipped_counts_read_naturally() {
    assert_eq!(skipped_count(0), None);
    assert_eq!(skipped_count(1).as_deref(), Some("1 card skipped (! list) "));
    assert_eq!(skipped_count(12).as_deref(), Some("12 cards skipped (! list) "));
}

#[test]
fn headings_and_fields() {
    assert_eq!(heading("Phone", Some("work")), "Phone (work)");
    assert_eq!(heading("Phone", None), "Phone");
    assert_eq!(field("Email", Some("home"), "a@b").as_deref(), Some("Email (home)  a@b"));
    assert_eq!(field("Email", None, ""), None);
}

#[test]
fn text_is_indented_line_by_line() {
    assert_eq!(indented("a\r\nb\n\nc\n"), ["  a", "  b", "  ", "  c"]);
    assert!(indented("").is_empty());
    assert_eq!(indented("x\r"), ["  x\r"]);
}
