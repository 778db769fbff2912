use iocguard::cli::CliArgs;

#[test]
fn test_parse_args_validate() {
    let _args = vec![
        "iocguard".to_string(),
        "validate".to_string(),
        "--input".to_string(),
        "data/domains.csv".to_string(),
        "--out".to_string(),
        "report".to_string(),
    ];
    let parsed = CliArgs {
        input: "data/domains.csv".to_string(),
        allowlist: None,
        out: "report".to_string(),
    };
    assert_eq!(parsed.input, "data/domains.csv");
    assert_eq!(parsed.out, "report");
}
