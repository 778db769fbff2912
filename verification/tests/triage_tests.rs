use iocguard::domain::{normalize, strip_trailing_dot, DomainRecord, DomainStatus};
use iocguard::validate::{
    has_suspicious_content, is_suspicious_domain, is_valid_domain, parse_allowlist,
    parse_csv_line, process_input,
};

#[test]
fn normalize_keeps_valid_domain() {
    assert_eq!(normalize("example.com"), "example.com");
    let once = normalize("  MAIL.Example.ORG. ");
    assert_eq!(once, "mail.example.org");
    assert_eq!(normalize(&once), once);
}

#[test]
fn normalize_unicode_whitespace_and_case() {
    assert_eq!(normalize("\u{3000}\tExample.COM\u{a0}\n"), "example.com");
    assert_eq!(normalize("ÉXAMPLE.COM"), "éxample.com");
}

#[test]
fn normalize_strips_only_one_dot() {
    assert_eq!(normalize("a.b.."), "a.b.");
    assert_eq!(strip_trailing_dot("x."), "x");
    assert_eq!(strip_trailing_dot("x"), "x");
    assert_eq!(strip_trailing_dot(""), "");
}

#[test]
fn new_record_is_accepted_and_unnormalized() {
    let r = DomainRecord::new("a.com".to_string(), "dns".to_string());
    assert_eq!(r.original, "a.com");
    assert_eq!(r.source, "dns");
    assert!(r.normalized.is_none());
    assert_eq!(r.status, DomainStatus::Accepted);
    assert_eq!(r.reason, "");
}

#[test]
fn validation_messages() {
    assert_eq!(is_valid_domain(""), Err("domain is empty".to_string()));
    assert_eq!(is_valid_domain("nodot"), Err("domain has no dot".to_string()));
    assert_eq!(
        is_valid_domain(&"a".repeat(254)),
        Err("domain has no dot".to_string())
    );
    let long = "a.".repeat(127);
    assert_eq!(
        is_valid_domain(&long),
        Err("domain length exceeds 253 characters".to_string())
    );
    assert_eq!(
        is_valid_domain("bad..domain"),
        Err("domain contains consecutive dots".to_string())
    );
    assert_eq!(
        is_valid_domain("exam ple.com"),
        Err("invalid character ' ' in domain".to_string())
    );
    assert_eq!(
        is_valid_domain("Example.com"),
        Err("invalid character 'E' in domain".to_string())
    );
    assert_eq!(
        is_valid_domain(".example.com"),
        Err("domain contains an empty label".to_string())
    );
    let label = "b".repeat(64);
    assert_eq!(
        is_valid_domain(&format!("{}.com", label)),
        Err(format!("label '{}' exceeds 63 characters", label))
    );
    assert_eq!(
        is_valid_domain("-malformed.com"),
        Err("label '-malformed' starts or ends with a hyphen".to_string())
    );
    assert_eq!(is_valid_domain(&("a".repeat(63) + ".com")), Ok(()));
}

#[test]
fn length_is_counted_in_bytes() {
    let wide = "é".repeat(126) + ".com";
    assert_eq!(wide.chars().count(), 130);
    assert_eq!(
        is_valid_domain(&wide),
        Err("domain length exceeds 253 characters".to_string())
    );
    let short = "é".repeat(3) + ".com";
    assert_eq!(
        is_valid_domain(&short),
        Err("invalid character 'é' in domain".to_string())
    );
}

#[test]
fn suspicion_rules() {
    assert!(is_suspicious_domain("shop.tk"));
    assert!(is_suspicious_domain("files.zip"));
    assert!(!is_suspicious_domain("zip.example.com"));
    assert!(is_suspicious_domain("SECURE.example.net"));
    assert!(is_suspicious_domain("my-secure-bank.com"));
    assert!(!is_suspicious_domain("a-b-c.com"));
    assert!(is_suspicious_domain("a-b-c-d.com"));
    assert!(has_suspicious_content("x.com", "x-verify.com"));
    assert!(!has_suspicious_content("ab.com", "ab.com"));
    assert!(has_suspicious_content("a-b-c-d", "abcd"));
}

#[test]
fn csv_line_parsing() {
    assert_eq!(parse_csv_line("   "), Err("empty line".to_string()));
    assert_eq!(parse_csv_line("example.com"), Err("missing source".to_string()));
    assert_eq!(
        parse_csv_line(" , proxy"),
        Err("empty domain in CSV line".to_string())
    );
    assert_eq!(
        parse_csv_line("  Example.com ,  proxy_log , extra "),
        Ok(("Example.com".to_string(), "proxy_log , extra".to_string()))
    );
    assert_eq!(
        parse_csv_line("a.com,"),
        Ok(("a.com".to_string(), "".to_string()))
    );
}

#[test]
fn process_records_in_order() {
    let csv = "domain,source\r\nExample.COM,manual\r\n\r\n  \nnocomma\nbad..domain,proxy\nlogin.example.com,dns\nwww.example.org,dns";
    let allow = vec!["example.com".to_string()];
    let r = process_input(csv, &allow);
    assert_eq!(r.processed, 5);
    assert_eq!(r.valid_count, 3);
    assert_eq!(r.invalid_count, 2);
    assert_eq!(r.allowlisted_count, 1);
    assert_eq!(r.suspicious_count, 1);
    assert_eq!(r.records.len(), 5);
    assert_eq!(r.processed, r.valid_count + r.invalid_count);

    let a = &r.records[0];
    assert_eq!(a.original, "Example.COM");
    assert_eq!(a.normalized.as_deref(), Some("example.com"));
    assert_eq!(a.source, "manual");
    assert_eq!(a.status, DomainStatus::Accepted);
    assert_eq!(a.reason, "allowlisted");

    let m = &r.records[1];
    assert_eq!(m.original, "nocomma");
    assert!(m.normalized.is_none());
    assert_eq!(m.source, "");
    assert_eq!(m.status, DomainStatus::Rejected);
    assert_eq!(m.reason, "malformed CSV line: missing source");

    let b = &r.records[2];
    assert_eq!(b.status, DomainStatus::Rejected);
    assert_eq!(b.reason, "domain contains consecutive dots");
    assert_eq!(b.normalized.as_deref(), Some("bad..domain"));

    let s = &r.records[3];
    assert_eq!(s.status, DomainStatus::Suspicious);
    assert_eq!(s.reason, "suspicious pattern detected");

    let w = &r.records[4];
    assert_eq!(w.status, DomainStatus::Accepted);
    assert_eq!(w.reason, "");
    assert_eq!(w.source, "dns");
}

#[test]
fn header_only_and_empty_inputs() {
    let none: Vec<String> = vec![];
    assert_eq!(process_input("", &none).processed, 0);
    assert_eq!(process_input("a.com,dns", &none).processed, 0);
    let r = process_input("h\n\n", &none);
    assert_eq!(r.processed, 0);
    assert!(r.records.is_empty());
}

#[test]
fn allowlist_wins_over_suspicion() {
    let allow = vec!["login.example.com".to_string()];
    let r = process_input("d,s\nLOGIN.example.com,mail\nlogin.example.com.,mail\n", &allow);
    assert_eq!(r.allowlisted_count, 2);
    assert_eq!(r.suspicious_count, 0);
    assert!(r.records.iter().all(|x| x.status == DomainStatus::Accepted));
}

#[test]
fn allowlist_file_entries() {
    let entries = parse_allowlist("Example.COM \n\r\n  login.Example.org\r\nlast");
    assert_eq!(
        entries,
        vec![
            "example.com".to_string(),
            "".to_string(),
            "login.example.org".to_string(),
            "last".to_string()
        ]
    );
    assert!(parse_allowlist("").is_empty());
}

#[test]
fn punycode_label_anywhere_is_suspicious() {
    assert_eq!(is_valid_domain("a.xn--b.com"), Ok(()));
    assert!(is_suspicious_domain("a.xn--b.com"));
    assert!(is_suspicious_domain("www.xn--pple-43d.com"));
    assert!(!is_suspicious_domain("a.bxn--c.com"));
    let r = process_input("d,s\nwww.xn--pple-43d.com,mail\n", &[]);
    assert_eq!(r.suspicious_count, 1);
}

#[test]
fn normalize_twice_and_ignore_case() {
    for s in ["  Example.COM. ", "MAIL.example.org", "a.b..", "x . ", "\tWWW.Test-Site.NET\n"] {
        let once = normalize(s);
        if !once.ends_with('.') && once.trim_end() == once {
            assert_eq!(normalize(&once), once);
        }
        assert_eq!(normalize(&s.to_ascii_uppercase()), once);
        assert!(!once.bytes().any(|b| b.is_ascii_uppercase()));
    }
}

#[test]
fn growing_the_allowlist() {
    let csv = "d,s\nlogin.example.com,a\nexample.org,b\nbad..x,c\nxn--x.com,d\n";
    let small = vec!["example.org".to_string()];
    let big = vec![
        "example.org".to_string(),
        "login.example.com".to_string(),
        "unused.net".to_string(),
    ];
    let r1 = process_input(csv, &small);
    let r2 = process_input(csv, &big);
    assert_eq!(r1.processed, r2.processed);
    assert_eq!(r1.valid_count, r2.valid_count);
    assert_eq!(r1.invalid_count, r2.invalid_count);
    assert!(r2.suspicious_count < r1.suspicious_count);
    assert!(r2.allowlisted_count > r1.allowlisted_count);
    let by_reason = r2
        .records
        .iter()
        .filter(|r| r.status == DomainStatus::Accepted && r.reason == "allowlisted")
        .count();
    assert_eq!(r2.allowlisted_count, by_reason);
}

#[test]
fn blank_lines_do_not_matter() {
    let allow = vec!["example.com".to_string()];
    let a = process_input("header\nexample.com,x\nbad..d,y\n", &allow);
    let b = process_input("other header\r\n\r\n   \nexample.com,x\r\n\t\nbad..d,y", &allow);
    assert_eq!(a.processed, b.processed);
    assert_eq!(a.valid_count, b.valid_count);
    assert_eq!(a.invalid_count, b.invalid_count);
    assert_eq!(a.allowlisted_count, b.allowlisted_count);
    assert_eq!(a.suspicious_count, b.suspicious_count);
    assert_eq!(format!("{:?}", a.records), format!("{:?}", b.records));
}
