use iocguard::validate::{is_suspicious_domain, is_valid_domain, process_input};

#[test]
fn test_reject_consecutive_dots() {
    assert!(is_valid_domain("bad..domain").is_err());
}

#[test]
fn test_reject_leading_hyphen() {
    assert!(is_valid_domain("-malformed.com").is_err());
}

#[test]
fn test_reject_trailing_hyphen() {
    assert!(is_valid_domain("malformed-.com").is_err());
}

#[test]
fn test_reject_no_dot() {
    assert!(is_valid_domain("nodomain").is_err());
}

#[test]
fn test_reject_empty() {
    assert!(is_valid_domain("").is_err());
}

#[test]
fn test_valid_accepts() {
    assert!(is_valid_domain("example.com").is_ok());
}

#[test]
fn test_valid_accepts_hyphenated() {
    assert!(is_valid_domain("my-example.com").is_ok());
}

#[test]
fn test_suspicious_xn() {
    assert!(is_suspicious_domain("xn--phishing-test.com"));
}

#[test]
fn test_suspicious_tld_xyz() {
    assert!(is_suspicious_domain("paypa1-login.xyz"));
}

#[test]
fn test_suspicious_keyword() {
    assert!(is_suspicious_domain("login-example.com"));
}

#[test]
fn test_suspicious_three_hyphens() {
    assert!(is_suspicious_domain("a-b-c-test.com"));
}

#[test]
fn test_not_suspicious_normal() {
    assert!(!is_suspicious_domain("example.com"));
}

#[test]
fn test_allowlisted_not_suspicious() {
    let csv = "domain,source\nxn--phishing-test.com,email_gateway\n";
    let allowlist = vec!["xn--phishing-test.com".to_string()];
    let result = process_input(csv, &allowlist);
    assert_eq!(result.allowlisted_count, 1);
    assert_eq!(result.suspicious_count, 0);
}

#[test]
fn test_malformed_csv_line() {
    let csv = "domain,source\n";
    let allowlist = vec![];
    let result = process_input(csv, &allowlist);
    assert_eq!(result.processed, 0);
}

#[test]
fn test_paypal1_login_suspicious() {
    let csv = "domain,source\npaypa1-login.xyz,email_gateway\n";
    let allowlist = vec![];
    let result = process_input(csv, &allowlist);
    assert_eq!(result.suspicious_count, 1);
    assert_eq!(result.valid_count, 1);
}

#[test]
fn test_full_processing() {
    let csv = "domain,source\nExample.COM,manual\nbad..domain,proxy_log\n";
    let allowlist = vec!["example.com".to_string()];
    let result = process_input(csv, &allowlist);
    assert_eq!(result.processed, 2);
    assert_eq!(result.allowlisted_count, 1);
    assert_eq!(result.invalid_count, 1);
}

#[test]
fn test_reject_long_label() {
    let long = "a".repeat(64) + ".com";
    assert!(is_valid_domain(&long).is_err());
}

#[test]
fn test_reject_long_domain() {
    let long = "a".repeat(254);
    assert!(is_valid_domain(&long).is_err());
}

#[test]
fn test_reject_invalid_char() {
    assert!(is_valid_domain("exam ple.com").is_err());
}
