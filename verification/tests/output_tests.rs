use iocguard::cli::{parse_args, CliError};
use iocguard::report::{csv_document, escape_csv, record_row, report_rows, summary_text};
use iocguard::validate::process_input;

fn strings(v: &[&str]) -> Vec<String> {
    v.iter().map(|s| s.to_string()).collect()
}

#[test]
fn escape_newline_and_plain() {
    assert_eq!(escape_csv("a\nb"), "\"a\nb\"");
    assert_eq!(escape_csv(""), "");
    assert_eq!(escape_csv("\""), "\"\"\"\"");
}

#[test]
fn escape_reads_back() {
    let value = "he said \"hi\", then left";
    let field = escape_csv(value);
    let inner = &field[1..field.len() - 1];
    assert_eq!(inner.replace("\"\"", "\""), value);
}

#[test]
fn rows_follow_status() {
    let csv = "d,s\nexample.com,manual\nxn--x.com,mail\nbad..x,\"p,q\"\nok.org,dns\n";
    let allow = strings(&["example.com"]);
    let r = process_input(csv, &allow);
    let rows = report_rows(&r);
    assert_eq!(
        rows.accepted,
        strings(&[
            "example.com,manual,accepted,allowlisted",
            "ok.org,dns,accepted,valid"
        ])
    );
    assert_eq!(
        rows.suspicious,
        strings(&["xn--x.com,mail,suspicious,suspicious pattern detected"])
    );
    assert_eq!(
        rows.rejected,
        strings(&["bad..x,\"\"\"p,q\"\"\",rejected,domain contains consecutive dots"])
    );
    assert_eq!(
        rows.accepted.len() + rows.suspicious.len() + rows.rejected.len(),
        r.records.len()
    );
    assert_eq!(record_row(&r.records[3]), "ok.org,dns,accepted,valid");
}

#[test]
fn csv_document_lines() {
    let rows = strings(&["a,b", "c,d"]);
    assert_eq!(csv_document("h1,h2", &rows), "h1,h2\na,b\nc,d\n");
    assert_eq!(csv_document("h", &Vec::new()), "h\n");
}

#[test]
fn summary_file_text() {
    let r = process_input("d,s\nexample.com,m\nbad..x,p\nlogin.x.com,q\n", &strings(&["example.com"]));
    let expected = format!(
        "IOCGuard Report Summary\n{}\nTotal lines processed: 3\nValid domains:       2\nInvalid domains:     1\nAllowlisted domains: 1\nSuspicious domains:  1\n",
        "=".repeat(30)
    );
    assert_eq!(summary_text(&r), expected);
}

#[test]
fn summary_large_counts() {
    let mut csv = String::from("d,s\n");
    for i in 0..1234 {
        csv.push_str(&format!("host{}.example.com,dns\n", i));
    }
    let r = process_input(&csv, &[]);
    assert!(summary_text(&r).contains("Total lines processed: 1234\n"));
    assert!(summary_text(&r).contains("Invalid domains:     0\n"));
}

#[test]
fn args_full() {
    let a = parse_args(&strings(&[
        "iocguard", "validate", "--input", "data/domains.csv", "--allowlist", "allow.txt", "--out", "out",
    ]))
    .unwrap();
    assert_eq!(a.input, "data/domains.csv");
    assert_eq!(a.allowlist.as_deref(), Some("allow.txt"));
    assert_eq!(a.out, "out");
}

#[test]
fn args_defaults_and_errors() {
    let a = parse_args(&strings(&["iocguard", "--input", "x.csv"])).unwrap();
    assert_eq!(a.out, "report");
    assert!(a.allowlist.is_none());

    match parse_args(&strings(&["iocguard", "validate"])) {
        Err(CliError::MissingInput) => {}
        other => panic!("unexpected {:?}", other),
    }
    match parse_args(&strings(&["iocguard", "--input"])) {
        Err(CliError::MissingArgument(f)) => assert_eq!(f, "--input"),
        other => panic!("unexpected {:?}", other),
    }
    match parse_args(&strings(&["iocguard", "--input", "x", "--verbose"])) {
        Err(CliError::MissingArgument(f)) => assert_eq!(f, "--verbose"),
        other => panic!("unexpected {:?}", other),
    }
    match parse_args(&strings(&["iocguard", "scan", "--input", "x"])) {
        Err(CliError::UnknownCommand(c)) => assert_eq!(c, "scan"),
        other => panic!("unexpected {:?}", other),
    }
    let b = parse_args(&strings(&["iocguard", "validate", "--input", "x", "extra"])).unwrap();
    assert_eq!(b.input, "x");
}

#[test]
fn error_messages() {
    assert_eq!(CliError::MissingInput.message(), "missing --input flag");
    assert_eq!(
        CliError::MissingArgument("--out".to_string()).message(),
        "missing value for --out"
    );
    assert_eq!(
        CliError::UnknownCommand("scan".to_string()).message(),
        "unknown command 'scan'"
    );
}

#[test]
fn report_documents_in_order() {
    let r = process_input("d,s\nexample.com,m\nbad..x,p\n", &[]);
    let docs = iocguard::report::report_documents(&r);
    let names: Vec<&str> = docs.iter().map(|(n, _)| n.as_str()).collect();
    assert_eq!(names, vec!["accepted.csv", "suspicious.csv", "rejected.csv", "summary.txt"]);
    assert_eq!(docs[0].1, "normalized_domain,source,status,reason\nexample.com,m,accepted,valid\n");
    assert_eq!(docs[1].1, "normalized_domain,source,status,reason\n");
    assert_eq!(
        docs[2].1,
        "original_value,source,status,reason\nbad..x,p,rejected,domain contains consecutive dots\n"
    );
    assert_eq!(docs[3].1, summary_text(&r));
}

#[test]
fn console_summary_text() {
    let r = process_input("d,s\nexample.com,m\nlogin.a.com,n\n", &strings(&["example.com"]));
    assert_eq!(
        iocguard::report::console_summary(&r, "out"),
        "IOCGuard report\nProcessed lines  : 2\nValid domains    : 2\nInvalid domains  : 0\nAllowlisted domains: 1\nSuspicious domains : 1\nReport directory : out\n"
    );
}
