use iocguard::domain::normalize;

#[test]
fn test_normalize_example_com() {
    assert_eq!(normalize("Example.COM"), "example.com");
}

#[test]
fn test_normalize_trailing_dot() {
    assert_eq!(normalize("updates.example.org."), "updates.example.org");
}

#[test]
fn test_normalize_spaces() {
    assert_eq!(normalize("  Example.COM  "), "example.com");
}
