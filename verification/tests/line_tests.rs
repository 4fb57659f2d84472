use logium_core::driver::{analyze, TimeRange};
use logium_core::lines::LogLineIterator;
use logium_core::model::{LogLine, Source, SourceTemplate, StateValue, TimestampTemplate};
use logium_core::times::parse_datetime;

fn make_ts_template() -> TimestampTemplate {
    TimestampTemplate {
        id: 1,
        name: "default".into(),
        format: "%Y-%m-%d %H:%M:%S".into(),
        extraction_regex: None,
        default_year: None,
    }
}

fn make_template() -> SourceTemplate {
    SourceTemplate {
        id: 1,
        name: "test".into(),
        timestamp_template_id: 1,
        line_delimiter: "\n".into(),
        content_regex: None,
        continuation_regex: None,
        json_timestamp_field: None,
    }
}

fn test_source() -> Source {
    Source { id: 1, name: "test".into(), template_id: 1, file_path: "".into() }
}

fn read_all(it: &mut LogLineIterator) -> Vec<Result<LogLine, logium_core::model::AnalysisError>> {
    let mut out = Vec::new();
    while let Some(r) = it.next() {
        out.push(r);
    }
    out
}

#[test]
fn test_multiline_continuation() {
    let mut text = String::new();
    text.push_str("2024-01-15 10:00:01 INFO Server started\n");
    text.push_str("2024-01-15 10:00:05 ERROR NullPointerException\n");
    text.push_str("  at com.example.Handler.process(Handler.java:42)\n");
    text.push_str("  at com.example.Server.handle(Server.java:128)\n");
    text.push_str("2024-01-15 10:00:06 WARN Pool low: 3 remaining\n");
    let text = text.as_str();

    let ts_template = make_ts_template();
    let template = SourceTemplate {
        id: 1,
        name: "test".into(),
        timestamp_template_id: 1,
        line_delimiter: "\n".into(),
        content_regex: None,
        continuation_regex: Some(r"^\s".to_string()),
        json_timestamp_field: None,
    };
    let source = test_source();

    let mut it = LogLineIterator::new(&source, &template, &ts_template, text).unwrap();
    let lines: Vec<LogLine> = read_all(&mut it).into_iter().map(|r| r.unwrap()).collect();

    assert_eq!(lines.len(), 3);
    assert_eq!(&lines[0].raw, "2024-01-15 10:00:01 INFO Server started");
    assert!(!lines[0].raw.contains('\n'));
    assert!(lines[1].raw.contains('\n'));
    assert!(lines[1].raw.contains("NullPointerException"));
    assert!(lines[1].raw.contains("at com.example.Handler.process"));
    assert!(lines[1].raw.contains("at com.example.Server.handle"));
    assert_eq!(&lines[2].raw, "2024-01-15 10:00:06 WARN Pool low: 3 remaining");

    assert_eq!(
        lines[0].timestamp,
        parse_datetime("2024-01-15 10:00:01", "%Y-%m-%d %H:%M:%S").unwrap()
    );
    assert_eq!(
        lines[1].timestamp,
        parse_datetime("2024-01-15 10:00:05", "%Y-%m-%d %H:%M:%S").unwrap()
    );
    assert_eq!(
        lines[2].timestamp,
        parse_datetime("2024-01-15 10:00:06", "%Y-%m-%d %H:%M:%S").unwrap()
    );
}

#[test]
fn test_multiline_continuation_none_is_passthrough() {
    let mut text = String::new();
    text.push_str("2024-01-15 10:00:01 INFO Server started\n");
    text.push_str("2024-01-15 10:00:05 ERROR NullPointerException\n");
    text.push_str("  at com.example.Handler.process(Handler.java:42)\n");
    let text = text.as_str();

    let ts_template = make_ts_template();
    let template = make_template();
    let source = test_source();

    let mut it = LogLineIterator::new(&source, &template, &ts_template, text).unwrap();
    let results = read_all(&mut it);

    assert_eq!(results.len(), 3);
    assert!(results[0].is_ok());
    assert!(results[1].is_ok());
    assert!(results[2].is_err());
}

#[test]
fn test_json_line_parsing() {
    let mut text = String::new();
    text.push_str(r#"{"timestamp":"2024-01-15 10:00:01","level":"INFO","message":"Server started","port":8080}"#);
    text.push('\n');
    text.push_str(r#"{"timestamp":"2024-01-15 10:00:02","level":"ERROR","message":"Connection failed","retries":3}"#);
    text.push('\n');
    text.push_str(r#"{"timestamp":"2024-01-15 10:00:03","level":"WARN","message":"High memory","usage_pct":85.5}"#);
    text.push('\n');

    let ts_template = make_ts_template();
    let template = SourceTemplate {
        id: 1,
        name: "json_test".into(),
        timestamp_template_id: 1,
        line_delimiter: "\n".into(),
        content_regex: None,
        continuation_regex: None,
        json_timestamp_field: Some("timestamp".into()),
    };
    let source = test_source();

    let mut it = LogLineIterator::new(&source, &template, &ts_template, &text).unwrap();
    let lines: Vec<LogLine> = read_all(&mut it).into_iter().map(|r| r.unwrap()).collect();

    assert_eq!(lines.len(), 3);
    assert_eq!(
        lines[0].timestamp,
        parse_datetime("2024-01-15 10:00:01", "%Y-%m-%d %H:%M:%S").unwrap()
    );
    assert_eq!(
        lines[1].timestamp,
        parse_datetime("2024-01-15 10:00:02", "%Y-%m-%d %H:%M:%S").unwrap()
    );
    assert!(lines[0].content.contains("Server started"));
    assert!(lines[0].content.starts_with('{'));
}

#[test]
fn test_json_line_invalid_json() {
    let text = "this is not json\n";

    let ts_template = make_ts_template();
    let template = SourceTemplate {
        id: 1,
        name: "json_test".into(),
        timestamp_template_id: 1,
        line_delimiter: "\n".into(),
        content_regex: None,
        continuation_regex: None,
        json_timestamp_field: Some("timestamp".into()),
    };
    let source = test_source();

    let mut it = LogLineIterator::new(&source, &template, &ts_template, text).unwrap();
    let results = read_all(&mut it);
    assert_eq!(results.len(), 1);
    assert!(results[0].is_err());
}

#[test]
fn test_json_auto_extraction() {
    let mut text = String::new();
    text.push_str(r#"{"timestamp":"2024-01-15 10:00:01","level":"INFO","message":"Server started","port":8080}"#);
    text.push('\n');
    text.push_str(r#"{"timestamp":"2024-01-15 10:00:02","level":"ERROR","message":"Connection failed","retries":3}"#);
    text.push('\n');
    text.push_str(r#"{"timestamp":"2024-01-15 10:00:03","level":"WARN","message":"High memory","usage_pct":85.5}"#);
    text.push('\n');
    text.push_str(r#"{"timestamp":"2024-01-15 10:00:04","level":"INFO","message":"Done","success":true}"#);
    text.push('\n');

    let ts_template = make_ts_template();
    let template = SourceTemplate {
        id: 1,
        name: "json_test".into(),
        timestamp_template_id: 1,
        line_delimiter: "\n".into(),
        content_regex: None,
        continuation_regex: None,
        json_timestamp_field: Some("timestamp".into()),
    };
    let source = Source { id: 1, name: "json_src".into(), template_id: 1, file_path: "".into() };

    let result = analyze(
        &vec![source],
        &vec![text.to_string()],
        &vec![template],
        &vec![ts_template],
        &vec![],
        &vec![],
        &vec![],
        &TimeRange::default(),
    )
    .unwrap();

    assert!(!result.state_changes.is_empty());

    let port_changes: Vec<_> =
        result.state_changes.iter().filter(|sc| sc.state_key == "port").collect();
    assert!(!port_changes.is_empty());
    assert_eq!(port_changes[0].new_value, Some(StateValue::Integer(8080)));

    let usage_changes: Vec<_> =
        result.state_changes.iter().filter(|sc| sc.state_key == "usage_pct").collect();
    assert!(!usage_changes.is_empty());
    match &usage_changes[0].new_value {
        Some(StateValue::Float(n)) => assert_eq!(n.as_f64(), Some(85.5)),
        other => panic!("expected a float, got {:?}", other),
    }

    let success_changes: Vec<_> =
        result.state_changes.iter().filter(|sc| sc.state_key == "success").collect();
    assert!(!success_changes.is_empty());
    assert_eq!(success_changes[0].new_value, Some(StateValue::Bool(true)));

    for sc in &result.state_changes {
        assert_eq!(sc.rule_id, 0);
    }
}
