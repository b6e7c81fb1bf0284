use multipart_upload::etag::strip_surrounding_quotes;

fn strip(s: &str) -> String {
    String::from_utf8(strip_surrounding_quotes(&s.as_bytes().to_vec())).unwrap()
}

#[test]
fn surrounding_quotes_are_stripped() {
    assert_eq!(strip("\"9bb58f26192e4ba00f01e2e7b136bbd8\""), "9bb58f26192e4ba00f01e2e7b136bbd8");
}

#[test]
fn unquoted_tag_is_unchanged() {
    assert_eq!(strip("abc123"), "abc123");
}

#[test]
fn interior_quotes_are_kept() {
    assert_eq!(strip("\"ab\"cd\""), "ab\"cd");
}

#[test]
fn repeated_surrounding_quotes_are_all_stripped() {
    assert_eq!(strip("\"\"tag\"\""), "tag");
}

#[test]
fn all_quotes_leave_an_empty_tag() {
    assert_eq!(strip("\"\"\""), "");
    assert_eq!(strip(""), "");
}
