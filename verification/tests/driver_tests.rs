use logium_core::driver::{analyze, analyze_events, analyze_streaming, AnalysisEvent, TimeRange, TimeRangeQuery};
use logium_core::lines::LogLineIterator;
use logium_core::merge::MergedLogStream;
use logium_core::model::{
    ExtractionMode, ExtractionRule, ExtractionType, LogLine, LogRule, MatchMode, MatchRule,
    Ruleset, Source, SourceTemplate, StateValue, TimestampTemplate,
};
use logium_core::times::parse_datetime;

fn make_ts_template() -> TimestampTemplate {
    TimestampTemplate {
        id: 1,
        name: "default".into(),
        format: "%Y-%m-%d %H:%M:%S".into(),
        extraction_regex: None,
        default_year: None,
    }
}

fn make_template() -> SourceTemplate {
    SourceTemplate {
        id: 1,
        name: "test".into(),
        timestamp_template_id: 1,
        line_delimiter: "\n".into(),
        content_regex: None,
        continuation_regex: None,
        json_timestamp_field: None,
    }
}

fn content_template() -> SourceTemplate {
    SourceTemplate {
        id: 1,
        name: "default".into(),
        timestamp_template_id: 1,
        line_delimiter: "\n".into(),
        content_regex: Some(r"^\d{4}-\d{2}-\d{2} \d{2}:\d{2}:\d{2} (.+)$".into()),
        continuation_regex: None,
        json_timestamp_field: None,
    }
}

fn source(id: u64, name: &str) -> Source {
    Source { id, name: name.into(), template_id: 1, file_path: "".into() }
}

fn server_client_rules() -> Vec<LogRule> {
    vec![
        LogRule {
            id: 1,
            name: "server_region".into(),
            match_mode: MatchMode::Any,
            match_rules: vec![MatchRule { id: 1, pattern: r"region \w+".into() }],
            extraction_rules: vec![ExtractionRule {
                id: 1,
                extraction_type: ExtractionType::Parsed,
                state_key: "region".into(),
                pattern: Some(r"region (?P<region>\S+)".into()),
                static_value: None,
                mode: ExtractionMode::Replace,
            }],
        },
        LogRule {
            id: 2,
            name: "player_count".into(),
            match_mode: MatchMode::Any,
            match_rules: vec![MatchRule { id: 2, pattern: r"Players online: \d+".into() }],
            extraction_rules: vec![ExtractionRule {
                id: 2,
                extraction_type: ExtractionType::Parsed,
                state_key: "player_count".into(),
                pattern: Some(r"Players online: (?P<player_count>\d+)".into()),
                static_value: None,
                mode: ExtractionMode::Replace,
            }],
        },
        LogRule {
            id: 3,
            name: "client_region".into(),
            match_mode: MatchMode::Any,
            match_rules: vec![MatchRule { id: 3, pattern: r"connecting to region".into() }],
            extraction_rules: vec![ExtractionRule {
                id: 3,
                extraction_type: ExtractionType::Parsed,
                state_key: "region".into(),
                pattern: Some(r"region (?P<region>\S+)".into()),
                static_value: None,
                mode: ExtractionMode::Replace,
            }],
        },
    ]
}

fn cross_source_pattern() -> logium_core::model::Pattern {
    logium_core::model::Pattern {
        id: 1,
        name: "cross_source_detect".into(),
        predicates: vec![
            logium_core::model::PatternPredicate {
                source_name: "server".into(),
                state_key: "region".into(),
                operator: logium_core::model::Operator::Eq,
                operand: logium_core::model::Operand::StateRef {
                    source_name: "client".into(),
                    state_key: "region".into(),
                },
            },
            logium_core::model::PatternPredicate {
                source_name: "server".into(),
                state_key: "player_count".into(),
                operator: logium_core::model::Operator::Gt,
                operand: logium_core::model::Operand::Literal(StateValue::Integer(50)),
            },
        ],
    }
}

const SERVER_LOG: &str = "2024-01-01 00:00:01 [INFO] Server started in region us-east\n\
2024-01-01 00:00:03 [INFO] Players online: 42\n\
2024-01-01 00:00:05 [INFO] Players online: 100\n";

const CLIENT_LOG: &str = "2024-01-01 00:00:02 [INFO] Client connecting to region us-east\n\
2024-01-01 00:00:04 [INFO] Client connected, status active\n";

#[test]
fn test_kway_merge_three_sources() {
    let text1 = "2024-01-01 00:00:01 source1 line1\n2024-01-01 00:00:04 source1 line2\n2024-01-01 00:00:07 source1 line3\n";
    let text2 = "2024-01-01 00:00:02 source2 line1\n2024-01-01 00:00:05 source2 line2\n";
    let text3 = "2024-01-01 00:00:03 source3 line1\n2024-01-01 00:00:06 source3 line2\n";

    let template = make_template();
    let ts_template = make_ts_template();
    let sources = [source(1, "s1"), source(2, "s2"), source(3, "s3")];
    let texts = [text1, text2, text3];

    let mut iters = Vec::new();
    for (s, t) in sources.iter().zip(texts.iter()) {
        iters.push(LogLineIterator::new(s, &template, &ts_template, t).unwrap());
    }

    let mut stream = MergedLogStream::new(iters).unwrap();
    let mut lines: Vec<LogLine> = Vec::new();
    while let Some(r) = stream.next() {
        lines.push(r.unwrap());
    }

    assert_eq!(lines.len(), 7);
    for i in 1..lines.len() {
        assert!(lines[i].timestamp >= lines[i - 1].timestamp);
    }
    let source_ids: Vec<u64> = lines.iter().map(|l| l.source_id).collect();
    assert_eq!(source_ids, vec![1, 2, 3, 1, 2, 3, 1]);
}

#[test]
fn test_integration_server_client_scenario() {
    let sources = vec![source(1, "server"), source(2, "client")];
    let texts = vec![SERVER_LOG.to_string(), CLIENT_LOG.to_string()];
    let templates = vec![content_template()];
    let ts_templates = vec![make_ts_template()];
    let rules = server_client_rules();
    let rulesets = vec![Ruleset {
        id: 1,
        name: "server_rules".into(),
        template_id: 1,
        rule_ids: vec![1, 2, 3],
    }];
    let patterns = vec![cross_source_pattern()];

    let result = analyze(
        &sources,
        &texts,
        &templates,
        &ts_templates,
        &rules,
        &rulesets,
        &patterns,
        &TimeRange::default(),
    )
    .unwrap();

    assert!(result.rule_matches.len() >= 3);
    assert_eq!(result.pattern_matches.len(), 1);
    assert_eq!(result.pattern_matches[0].pattern_id, 1);

    // the firing carries the completing line's timestamp
    assert_eq!(
        result.pattern_matches[0].timestamp,
        parse_datetime("2024-01-01 00:00:05", "%Y-%m-%d %H:%M:%S").unwrap()
    );

    let snap = &result.pattern_matches[0].state_snapshot;
    assert!(snap.get("server").is_some());
    assert!(snap.get("client").is_some());
    assert_eq!(
        snap.get("server").unwrap().get("region").map(|t| &t.value),
        Some(&StateValue::String("us-east".into()))
    );
}

#[test]
fn test_analyze_streaming_sends_events() {
    let sources = vec![source(1, "server"), source(2, "client")];
    let texts = vec![SERVER_LOG.to_string(), CLIENT_LOG.to_string()];
    let templates = vec![content_template()];
    let ts_templates = vec![make_ts_template()];
    let rules = server_client_rules();
    let rulesets = vec![Ruleset {
        id: 1,
        name: "server_rules".into(),
        template_id: 1,
        rule_ids: vec![1, 2, 3],
    }];
    let patterns = vec![cross_source_pattern()];

    let (tx, rx) = std::sync::mpsc::channel();
    analyze_streaming(
        &sources,
        &texts,
        &templates,
        &ts_templates,
        &rules,
        &rulesets,
        &patterns,
        tx,
        &TimeRange::default(),
    )
    .unwrap();

    let sync_result = analyze(
        &sources,
        &texts,
        &templates,
        &ts_templates,
        &rules,
        &rulesets,
        &patterns,
        &TimeRange::default(),
    )
    .unwrap();

    let events: Vec<AnalysisEvent> = rx.iter().collect();

    let stream_rule_matches: Vec<_> =
        events.iter().filter(|e| matches!(e, AnalysisEvent::RuleMatch(_))).collect();
    let stream_pattern_matches: Vec<_> =
        events.iter().filter(|e| matches!(e, AnalysisEvent::PatternMatch(_))).collect();
    let complete_events: Vec<_> =
        events.iter().filter(|e| matches!(e, AnalysisEvent::Complete { .. })).collect();

    assert_eq!(stream_rule_matches.len(), sync_result.rule_matches.len());
    assert_eq!(stream_pattern_matches.len(), sync_result.pattern_matches.len());

    assert_eq!(complete_events.len(), 1);
    if let AnalysisEvent::Complete {
        total_lines,
        total_rule_matches,
        total_pattern_matches,
        total_state_changes,
    } = &complete_events[0]
    {
        assert_eq!(*total_lines, 5);
        assert_eq!(*total_rule_matches, sync_result.rule_matches.len() as u64);
        assert_eq!(*total_pattern_matches, sync_result.pattern_matches.len() as u64);
        assert_eq!(*total_state_changes, sync_result.state_changes.len() as u64);
    } else {
        panic!("expected a completion event");
    }
}

#[test]
fn test_streaming_emits_state_change_events() {
    let text = "2024-01-01 00:00:01 [INFO] Server started in region us-east\n\
2024-01-01 00:00:03 [INFO] Players online: 42\n";
    let sources = vec![source(1, "server")];
    let texts = vec![text.to_string()];
    let templates = vec![content_template()];
    let ts_templates = vec![make_ts_template()];
    let mut rules = server_client_rules();
    rules.truncate(2);
    let rulesets =
        vec![Ruleset { id: 1, name: "server_rules".into(), template_id: 1, rule_ids: vec![1, 2] }];

    let (tx, rx) = std::sync::mpsc::channel();
    analyze_streaming(
        &sources,
        &texts,
        &templates,
        &ts_templates,
        &rules,
        &rulesets,
        &vec![],
        tx,
        &TimeRange::default(),
    )
    .unwrap();

    let events: Vec<AnalysisEvent> = rx.iter().collect();
    let state_changes: Vec<_> =
        events.iter().filter(|e| matches!(e, AnalysisEvent::StateChange(_))).collect();

    assert_eq!(state_changes.len(), 2);
    if let AnalysisEvent::StateChange(sc) = &state_changes[0] {
        assert_eq!(sc.state_key, "region");
        assert_eq!(sc.source_name, "server");
        assert!(sc.old_value.is_none());
        assert_eq!(sc.new_value, Some(StateValue::String("us-east".into())));
    }
}

fn time_range_fixture() -> (Vec<Source>, Vec<String>, Vec<SourceTemplate>, Vec<TimestampTemplate>, Vec<LogRule>, Vec<Ruleset>) {
    let mut text = String::new();
    for min in 1..=5 {
        text.push_str(&format!("2024-01-01 00:0{min}:00 event_{min}\n"));
    }
    let rules = vec![LogRule {
        id: 1,
        name: "match_event".into(),
        match_mode: MatchMode::Any,
        match_rules: vec![MatchRule { id: 1, pattern: r"event_\d+".into() }],
        extraction_rules: vec![],
    }];
    let rulesets = vec![Ruleset { id: 1, name: "rs".into(), template_id: 1, rule_ids: vec![1] }];
    (
        vec![source(1, "src")],
        vec![text],
        vec![content_template()],
        vec![make_ts_template()],
        rules,
        rulesets,
    )
}

#[test]
fn test_time_range_filtering() {
    let (sources, texts, templates, ts_templates, rules, rulesets) = time_range_fixture();
    let time_range = TimeRange {
        start: Some(parse_datetime("2024-01-01 00:02:00", "%Y-%m-%d %H:%M:%S").unwrap()),
        end: Some(parse_datetime("2024-01-01 00:04:00", "%Y-%m-%d %H:%M:%S").unwrap()),
    };
    let result = analyze(
        &sources, &texts, &templates, &ts_templates, &rules, &rulesets, &vec![], &time_range,
    )
    .unwrap();
    assert_eq!(result.rule_matches.len(), 3);
}

#[test]
fn test_time_range_start_only() {
    let (sources, texts, templates, ts_templates, rules, rulesets) = time_range_fixture();
    let time_range = TimeRange {
        start: Some(parse_datetime("2024-01-01 00:04:00", "%Y-%m-%d %H:%M:%S").unwrap()),
        end: None,
    };
    let result = analyze(
        &sources, &texts, &templates, &ts_templates, &rules, &rulesets, &vec![], &time_range,
    )
    .unwrap();
    assert_eq!(result.rule_matches.len(), 2);
}

#[test]
fn test_time_range_end_only() {
    let (sources, texts, templates, ts_templates, rules, rulesets) = time_range_fixture();
    let time_range = TimeRange {
        start: None,
        end: Some(parse_datetime("2024-01-01 00:02:00", "%Y-%m-%d %H:%M:%S").unwrap()),
    };
    let result = analyze(
        &sources, &texts, &templates, &ts_templates, &rules, &rulesets, &vec![], &time_range,
    )
    .unwrap();
    assert_eq!(result.rule_matches.len(), 2);
}

#[test]
fn test_time_range_default() {
    let (sources, texts, templates, ts_templates, rules, rulesets) = time_range_fixture();
    let result = analyze(
        &sources,
        &texts,
        &templates,
        &ts_templates,
        &rules,
        &rulesets,
        &vec![],
        &TimeRange::default(),
    )
    .unwrap();
    assert_eq!(result.rule_matches.len(), 5);
}

#[test]
fn test_analyze_is_deterministic() {
    let sources = vec![source(1, "server"), source(2, "client")];
    let texts = vec![SERVER_LOG.to_string(), CLIENT_LOG.to_string()];
    let templates = vec![content_template()];
    let ts_templates = vec![make_ts_template()];
    let rules = server_client_rules();
    let rulesets = vec![Ruleset {
        id: 1,
        name: "server_rules".into(),
        template_id: 1,
        rule_ids: vec![1, 2, 3],
    }];
    let patterns = vec![cross_source_pattern()];

    let run = || {
        analyze(
            &sources,
            &texts,
            &templates,
            &ts_templates,
            &rules,
            &rulesets,
            &patterns,
            &TimeRange::default(),
        )
        .unwrap()
    };
    let a = run();
    let b = run();
    assert_eq!(a.rule_matches.len(), b.rule_matches.len());
    assert_eq!(a.pattern_matches.len(), b.pattern_matches.len());
    assert_eq!(a.state_changes.len(), b.state_changes.len());
    for (x, y) in a.state_changes.iter().zip(b.state_changes.iter()) {
        assert_eq!(x.state_key, y.state_key);
        assert_eq!(x.old_value, y.old_value);
        assert_eq!(x.new_value, y.new_value);
        assert_eq!(x.rule_id, y.rule_id);
        assert_eq!(x.timestamp, y.timestamp);
    }
}

#[test]
fn test_accumulate_integer_sequence() {
    // inputs 3, 5, 7 accumulate to 15 with changes None->3, 3->8, 8->15
    let text = "2024-01-01 00:00:01 count 3\n2024-01-01 00:00:02 count 5\n2024-01-01 00:00:03 count 7\n";
    let sources = vec![source(1, "src")];
    let texts = vec![text.to_string()];
    let templates = vec![content_template()];
    let ts_templates = vec![make_ts_template()];
    let rules = vec![LogRule {
        id: 1,
        name: "acc".into(),
        match_mode: MatchMode::Any,
        match_rules: vec![MatchRule { id: 1, pattern: r"count \d+".into() }],
        extraction_rules: vec![ExtractionRule {
            id: 1,
            extraction_type: ExtractionType::Parsed,
            state_key: "count".into(),
            pattern: Some(r"count (?P<count>\d+)".into()),
            static_value: None,
            mode: ExtractionMode::Accumulate,
        }],
    }];
    let rulesets = vec![Ruleset { id: 1, name: "rs".into(), template_id: 1, rule_ids: vec![1] }];
    let result = analyze(
        &sources,
        &texts,
        &templates,
        &ts_templates,
        &rules,
        &rulesets,
        &vec![],
        &TimeRange::default(),
    )
    .unwrap();

    assert_eq!(result.state_changes.len(), 3);
    assert_eq!(result.state_changes[0].old_value, None);
    assert_eq!(result.state_changes[0].new_value, Some(StateValue::Integer(3)));
    assert_eq!(result.state_changes[1].old_value, Some(StateValue::Integer(3)));
    assert_eq!(result.state_changes[1].new_value, Some(StateValue::Integer(8)));
    assert_eq!(result.state_changes[2].old_value, Some(StateValue::Integer(8)));
    assert_eq!(result.state_changes[2].new_value, Some(StateValue::Integer(15)));
}

#[test]
fn test_state_changes_never_repeat_values() {
    let sources = vec![source(1, "server"), source(2, "client")];
    let texts = vec![SERVER_LOG.to_string(), CLIENT_LOG.to_string()];
    let templates = vec![content_template()];
    let ts_templates = vec![make_ts_template()];
    let rules = server_client_rules();
    let rulesets = vec![Ruleset {
        id: 1,
        name: "server_rules".into(),
        template_id: 1,
        rule_ids: vec![1, 2, 3],
    }];
    let result = analyze(
        &sources,
        &texts,
        &templates,
        &ts_templates,
        &rules,
        &rulesets,
        &vec![],
        &TimeRange::default(),
    )
    .unwrap();
    for sc in &result.state_changes {
        assert_ne!(sc.old_value, sc.new_value);
    }
}

#[test]
fn test_time_range_query_parsing() {
    let q = TimeRangeQuery {
        start: Some("2024-01-01T10:00:00".into()),
        end: Some("2024-01-01 12:00:00".into()),
    };
    let tr = q.to_time_range().unwrap();
    assert_eq!(
        tr.start.unwrap(),
        parse_datetime("2024-01-01 10:00:00", "%Y-%m-%d %H:%M:%S").unwrap()
    );
    assert_eq!(
        tr.end.unwrap(),
        parse_datetime("2024-01-01 12:00:00", "%Y-%m-%d %H:%M:%S").unwrap()
    );
}

#[test]
fn test_time_range_query_invalid() {
    let q = TimeRangeQuery { start: Some("not-a-date".into()), end: None };
    assert!(q.to_time_range().is_err());
}

#[test]
fn test_time_range_query_empty() {
    let q = TimeRangeQuery::default();
    let tr = q.to_time_range().unwrap();
    assert!(tr.start.is_none());
    assert!(tr.end.is_none());
}

#[test]
fn test_analyze_events_equal_streamed_events() {
    let sources = vec![source(1, "server"), source(2, "client")];
    let texts = vec![SERVER_LOG.to_string(), CLIENT_LOG.to_string()];
    let templates = vec![content_template()];
    let ts_templates = vec![make_ts_template()];
    let rules = server_client_rules();
    let rulesets = vec![Ruleset {
        id: 1,
        name: "server_rules".into(),
        template_id: 1,
        rule_ids: vec![1, 2, 3],
    }];
    let patterns = vec![cross_source_pattern()];

    let events = analyze_events(
        &sources,
        &texts,
        &templates,
        &ts_templates,
        &rules,
        &rulesets,
        &patterns,
        &TimeRange::default(),
    )
    .unwrap();

    let (tx, rx) = std::sync::mpsc::channel();
    analyze_streaming(
        &sources,
        &texts,
        &templates,
        &ts_templates,
        &rules,
        &rulesets,
        &patterns,
        tx,
        &TimeRange::default(),
    )
    .unwrap();
    let streamed: Vec<AnalysisEvent> = rx.iter().collect();

    assert_eq!(events.len(), streamed.len());
    for (a, b) in events.iter().zip(streamed.iter()) {
        match (a, b) {
            (AnalysisEvent::RuleMatch(x), AnalysisEvent::RuleMatch(y)) => {
                assert_eq!(x.rule_id, y.rule_id);
                assert_eq!(x.source_id, y.source_id);
            }
            (AnalysisEvent::StateChange(x), AnalysisEvent::StateChange(y)) => {
                assert_eq!(x.state_key, y.state_key);
                assert_eq!(x.new_value, y.new_value);
            }
            (AnalysisEvent::PatternMatch(x), AnalysisEvent::PatternMatch(y)) => {
                assert_eq!(x.pattern_id, y.pattern_id);
            }
            (AnalysisEvent::Progress { lines_processed: x }, AnalysisEvent::Progress { lines_processed: y }) => {
                assert_eq!(x, y);
            }
            (AnalysisEvent::Complete { total_lines: x, .. }, AnalysisEvent::Complete { total_lines: y, .. }) => {
                assert_eq!(x, y);
            }
            other => panic!("event kinds diverge: {:?}", other),
        }
    }
}

#[test]
fn test_single_predicate_pattern_fires_per_matching_line() {
    // the condition holds at two lines and fails at one: exactly two firings
    let text = "2024-01-01 00:00:01 status running\n\
2024-01-01 00:00:02 status stopped\n\
2024-01-01 00:00:03 status running\n";
    let sources = vec![source(1, "server")];
    let texts = vec![text.to_string()];
    let templates = vec![content_template()];
    let ts_templates = vec![make_ts_template()];
    let rules = vec![LogRule {
        id: 1,
        name: "status".into(),
        match_mode: MatchMode::Any,
        match_rules: vec![MatchRule { id: 1, pattern: r"status \w+".into() }],
        extraction_rules: vec![ExtractionRule {
            id: 1,
            extraction_type: ExtractionType::Parsed,
            state_key: "status".into(),
            pattern: Some(r"status (?P<status>\w+)".into()),
            static_value: None,
            mode: ExtractionMode::Replace,
        }],
    }];
    let rulesets = vec![Ruleset { id: 1, name: "rs".into(), template_id: 1, rule_ids: vec![1] }];
    let patterns = vec![logium_core::model::Pattern {
        id: 1,
        name: "running".into(),
        predicates: vec![logium_core::model::PatternPredicate {
            source_name: "server".into(),
            state_key: "status".into(),
            operator: logium_core::model::Operator::Eq,
            operand: logium_core::model::Operand::Literal(StateValue::String("running".into())),
        }],
    }];
    let result = analyze(
        &sources,
        &texts,
        &templates,
        &ts_templates,
        &rules,
        &rulesets,
        &patterns,
        &TimeRange::default(),
    )
    .unwrap();
    assert_eq!(result.pattern_matches.len(), 2);
}
