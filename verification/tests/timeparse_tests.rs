use logium_core::convert::{
    extraction_mode_to_str, extraction_type_to_str, match_mode_to_str, operator_to_str,
    parse_extraction_mode, parse_extraction_type, parse_match_mode, parse_operator,
};
use logium_core::export::{lookup_name, parse_csv_section, CsvSection};
use logium_core::suggest::build_suggested_pattern;
use logium_core::timeparse::{
    estimate_timestamp_len, estimate_timestamp_len_simple, parse_timestamp_prefix,
    try_parse_timestamp,
};
use logium_core::times::parse_datetime;

#[test]
fn test_estimate_timestamp_len_iso() {
    let (min, max) = estimate_timestamp_len("%Y-%m-%d %H:%M:%S");
    assert_eq!(min, 19);
    assert_eq!(max, 19);
}

#[test]
fn test_estimate_timestamp_len_nginx() {
    let (min, max) = estimate_timestamp_len("%d/%b/%Y:%H:%M:%S");
    assert_eq!(min, 20);
    assert_eq!(max, 20);
}

#[test]
fn test_estimate_timestamp_len_syslog() {
    let (min, max) = estimate_timestamp_len("%b %d %H:%M:%S");
    assert_eq!(min, 15);
    assert_eq!(max, 15);
}

#[test]
fn test_estimate_timestamp_len_with_subsecond() {
    let (min, max) = estimate_timestamp_len("%Y-%m-%dT%H:%M:%S.%3f");
    assert_eq!(min, 23);
    assert_eq!(max, 23);
}

#[test]
fn test_estimate_timestamp_len_with_timezone() {
    let (min, max) = estimate_timestamp_len("%Y-%m-%d %H:%M:%S %z");
    assert_eq!(min, 25);
    assert_eq!(max, 25);
}

#[test]
fn test_estimate_timestamp_len_yearless_augmented() {
    let (min, max) = estimate_timestamp_len("%Y %b %d %H:%M:%S");
    assert_eq!(min, 20);
    assert_eq!(max, 20);
}

#[test]
fn test_parse_timestamp_prefix_zookeeper() {
    let line = "2015-07-29 17:41:44,747 - INFO  [QuorumPeer]";
    let ts = parse_timestamp_prefix(line, "%Y-%m-%d %H:%M:%S").unwrap();
    assert_eq!(ts, parse_datetime("2015-07-29 17:41:44", "%Y-%m-%d %H:%M:%S").unwrap());
}

#[test]
fn test_parse_timestamp_prefix_syslog_augmented() {
    let line = "2005 Jan  3 04:03:33 combo sshd[5765]: pam_unix";
    let ts = parse_timestamp_prefix(line, "%Y %b %d %H:%M:%S").unwrap();
    assert_eq!(ts, parse_datetime("2005-01-03 04:03:33", "%Y-%m-%d %H:%M:%S").unwrap());
}

#[test]
fn test_estimate_timestamp_len() {
    assert_eq!(estimate_timestamp_len_simple("%Y-%m-%d %H:%M:%S"), 19);
}

#[test]
fn test_try_parse_timestamp() {
    assert!(try_parse_timestamp("2024-01-15 10:30:45 some content", "%Y-%m-%d %H:%M:%S"));
    assert!(!try_parse_timestamp("not a timestamp", "%Y-%m-%d %H:%M:%S"));
}

#[test]
fn test_build_suggested_pattern_numbers() {
    let (pat, groups) = build_suggested_pattern("error code 42 at line 100");
    assert!(pat.contains("(?P<num_0>\\d[\\d.]*)"));
    assert!(pat.contains("(?P<num_1>\\d[\\d.]*)"));
    assert_eq!(groups.len(), 2);
}

#[test]
fn test_build_suggested_pattern_quoted_string() {
    let (pat, groups) = build_suggested_pattern(r#"message "hello world" received"#);
    assert!(pat.contains(r#""(?P<str_0>[^"]*)"#));
    assert_eq!(groups.len(), 1);
}

#[test]
fn test_build_suggested_pattern_regex_escaping() {
    let (pat, _) = build_suggested_pattern("file.log");
    assert!(pat.contains(r"\."));
}

#[test]
fn test_parse_enum_names_round_trip() {
    assert_eq!(match_mode_to_str(&parse_match_mode("any").unwrap()), "any");
    assert_eq!(match_mode_to_str(&parse_match_mode("all").unwrap()), "all");
    assert!(parse_match_mode("sometimes").is_err());

    assert_eq!(extraction_type_to_str(&parse_extraction_type("parsed").unwrap()), "parsed");
    assert_eq!(extraction_type_to_str(&parse_extraction_type("static").unwrap()), "static");
    assert_eq!(extraction_type_to_str(&parse_extraction_type("clear").unwrap()), "clear");
    assert!(parse_extraction_type("other").is_err());

    assert_eq!(extraction_mode_to_str(&parse_extraction_mode("replace").unwrap()), "replace");
    assert_eq!(
        extraction_mode_to_str(&parse_extraction_mode("accumulate").unwrap()),
        "accumulate"
    );
    assert!(parse_extraction_mode("merge").is_err());

    for name in ["eq", "neq", "gt", "lt", "gte", "lte", "contains", "exists"] {
        assert_eq!(operator_to_str(&parse_operator(name).unwrap()), name);
    }
    assert!(parse_operator("between").is_err());
}

#[test]
fn test_parse_csv_section_names() {
    assert!(matches!(parse_csv_section("rule_matches"), Ok(CsvSection::RuleMatches)));
    assert!(matches!(parse_csv_section("pattern_matches"), Ok(CsvSection::PatternMatches)));
    assert!(matches!(parse_csv_section("state_changes"), Ok(CsvSection::StateChanges)));
    assert!(parse_csv_section("everything").is_err());
}

#[test]
fn test_lookup_name_resolves_and_falls_back() {
    let names = vec![(1u64, "app.log".to_string()), (2u64, "db.log".to_string())];
    assert_eq!(lookup_name(&names, 1), "app.log");
    assert_eq!(lookup_name(&names, 2), "db.log");
    assert_eq!(lookup_name(&names, 9), "unknown(9)");
}
