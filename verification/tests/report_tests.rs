use iocguard::report::escape_csv;

#[test]
fn test_escape_csv_simple() {
    assert_eq!(escape_csv("hello"), "hello");
}

#[test]
fn test_escape_csv_with_comma() {
    assert_eq!(escape_csv("he,llo"), "\"he,llo\"");
}

#[test]
fn test_escape_csv_with_quotes() {
    assert_eq!(escape_csv("he\"llo"), "\"he\"\"llo\"");
}
