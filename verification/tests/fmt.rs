use skald::fmt::format_str;

#[test]
fn formats_trailing_whitespace() {
    assert_eq!(format_str("a: 1   \nb: 2\n").unwrap(), "a: 1\nb: 2\n");
}

#[test]
fn rejects_invalid_yaml() {
    assert!(format_str("a: [1, 2").is_err());
}

#[test]
fn idempotent() {
    let once = format_str("x: y  \n").unwrap();
    assert_eq!(format_str(&once).unwrap(), once);
}

#[test]
fn preserves_comments() {
    assert_eq!(format_str("a: 1  # c\n").unwrap(), "a: 1  # c\n");
}
