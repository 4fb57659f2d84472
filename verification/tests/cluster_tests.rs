use logium_core::cluster::{cluster_logs, tokenize};
use logium_core::driver::TimeRange;
use logium_core::model::{Source, SourceTemplate, TimestampTemplate};

fn make_ts_template() -> TimestampTemplate {
    TimestampTemplate {
        id: 1,
        name: "ts".into(),
        format: "%Y-%m-%d %H:%M:%S".into(),
        extraction_regex: None,
        default_year: None,
    }
}

fn content_template() -> SourceTemplate {
    SourceTemplate {
        id: 1,
        name: "tmpl".into(),
        timestamp_template_id: 1,
        line_delimiter: "\n".into(),
        content_regex: Some(r"^\d{4}-\d{2}-\d{2} \d{2}:\d{2}:\d{2} (.+)$".into()),
        continuation_regex: None,
        json_timestamp_field: None,
    }
}

#[test]
fn test_tokenize_numbers() {
    assert_eq!(tokenize("ERROR 42 failed"), "ERROR <*> failed");
}

#[test]
fn test_tokenize_ips() {
    assert_eq!(tokenize("connect 10.0.0.1:8080"), "connect <*>");
}

#[test]
fn test_tokenize_preserves_keywords() {
    assert_eq!(tokenize("ERROR timeout"), "ERROR timeout");
}

#[test]
fn test_tokenize_uuids() {
    assert_eq!(tokenize("req a1b2c3d4-e5f6-7890-abcd-ef1234567890 done"), "req <*> done");
}

#[test]
fn test_tokenize_paths() {
    assert_eq!(tokenize("open /var/log/app.log failed"), "open <*> failed");
}

#[test]
fn test_tokenize_timestamps() {
    assert_eq!(tokenize("at 2024-01-15T10:30:00 event"), "at <*> event");
}

#[test]
fn test_tokenize_quoted_strings() {
    assert_eq!(tokenize(r#"msg "hello_world" end"#), "msg <*> end");
}

#[test]
fn test_tokenize_time_only() {
    assert_eq!(tokenize("at 04:03:33 event"), "at <*> event");
}

#[test]
fn test_tokenize_time_with_millis() {
    assert_eq!(tokenize("at 17:41:44,747 event"), "at <*> event");
}

#[test]
fn test_tokenize_embedded_digits() {
    assert_eq!(tokenize("su(pam_unix)[27953]: session opened"), "<*> session opened");
}

#[test]
fn test_tokenize_syslog_line() {
    assert_eq!(
        tokenize(
            "authentication failure; logname= uid=0 euid=0 tty=NODEVssh ruser= rhost=218.188.2.4"
        ),
        "authentication failure; logname= <*> <*> tty=NODEVssh ruser= <*>"
    );
}

#[test]
fn test_cluster_logs_basic() {
    let text = "2024-01-01 00:00:01 ERROR timeout after 100 ms\n\
2024-01-01 00:00:02 ERROR timeout after 200 ms\n\
2024-01-01 00:00:03 INFO started successfully\n\
2024-01-01 00:00:04 ERROR timeout after 300 ms\n";

    let sources = vec![Source { id: 1, name: "test".into(), template_id: 1, file_path: "".into() }];
    let result = cluster_logs(
        &sources,
        &vec![text.to_string()],
        &vec![content_template()],
        &vec![make_ts_template()],
        &TimeRange::default(),
    )
    .unwrap();

    assert_eq!(result.total_lines, 4);
    assert_eq!(result.clusters.len(), 1);
    assert_eq!(result.clusters[0].count, 3);
    assert!(result.clusters[0].template.contains("<*>"));
    assert!(result.clusters[0].sample_lines.len() <= 3);
    assert_eq!(result.clusters[0].source_ids, vec![1]);
}

#[test]
fn test_cluster_excludes_singletons() {
    let text = "2024-01-01 00:00:01 ERROR timeout 100\n\
2024-01-01 00:00:02 ERROR timeout 200\n\
2024-01-01 00:00:03 ERROR timeout 300\n\
2024-01-01 00:00:04 UNIQUE never repeated xyz\n";

    let sources = vec![Source { id: 1, name: "test".into(), template_id: 1, file_path: "".into() }];
    let result = cluster_logs(
        &sources,
        &vec![text.to_string()],
        &vec![content_template()],
        &vec![make_ts_template()],
        &TimeRange::default(),
    )
    .unwrap();

    assert_eq!(result.total_lines, 4);
    assert_eq!(result.clusters.len(), 1);
    assert_eq!(result.clusters[0].count, 3);
}

#[test]
fn test_cluster_counts_account_for_singletons() {
    // kept counts plus one per dropped singleton add up to the total
    let text = "2024-01-01 00:00:01 alpha repeated 1\n\
2024-01-01 00:00:02 alpha repeated 2\n\
2024-01-01 00:00:03 only once here\n\
2024-01-01 00:00:04 beta again 1\n\
2024-01-01 00:00:05 beta again 2\n\
2024-01-01 00:00:06 another lonely line\n";

    let sources = vec![Source { id: 1, name: "test".into(), template_id: 1, file_path: "".into() }];
    let result = cluster_logs(
        &sources,
        &vec![text.to_string()],
        &vec![content_template()],
        &vec![make_ts_template()],
        &TimeRange::default(),
    )
    .unwrap();

    let kept: u64 = result.clusters.iter().map(|c| c.count).sum();
    let singletons = 2u64;
    assert_eq!(kept + singletons, result.total_lines);
    // descending counts
    for w in result.clusters.windows(2) {
        assert!(w[0].count >= w[1].count);
    }
}
