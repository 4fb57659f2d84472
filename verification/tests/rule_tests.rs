use logium_core::model::{
    ExtractionMode, ExtractionRule, ExtractionType, LogLine, LogRule, MatchMode, MatchRule,
    StateValue,
};
use logium_core::rules::{compile_rules, evaluate_rule, CompiledRule};
use logium_core::times::{parse_datetime, Timestamp};

fn test_ts() -> Timestamp {
    parse_datetime("2024-01-01 00:00:00", "%Y-%m-%d %H:%M:%S").unwrap()
}

fn make_log_line(content: &str) -> LogLine {
    LogLine {
        timestamp: test_ts(),
        source_id: 1,
        raw: content.to_string(),
        content: content.to_string(),
    }
}

fn compile_one(rule: &LogRule) -> CompiledRule {
    let rules = vec![rule.clone()];
    compile_rules(&rules).unwrap().remove(0)
}

#[test]
fn test_single_match_rule_any() {
    let rule = LogRule {
        id: 1,
        name: "test".into(),
        match_mode: MatchMode::Any,
        match_rules: vec![MatchRule { id: 1, pattern: r"ERROR".into() }],
        extraction_rules: vec![],
    };
    let compiled = compile_one(&rule);
    let line = make_log_line("2024-01-01 ERROR something broke");
    assert!(evaluate_rule(&rule, &line, &compiled).is_some());
}

#[test]
fn test_single_match_rule_no_match() {
    let rule = LogRule {
        id: 1,
        name: "test".into(),
        match_mode: MatchMode::Any,
        match_rules: vec![MatchRule { id: 1, pattern: r"ERROR".into() }],
        extraction_rules: vec![],
    };
    let compiled = compile_one(&rule);
    let line = make_log_line("2024-01-01 INFO all good");
    assert!(evaluate_rule(&rule, &line, &compiled).is_none());
}

#[test]
fn test_multiple_match_rules_any_mode() {
    let rule = LogRule {
        id: 1,
        name: "test".into(),
        match_mode: MatchMode::Any,
        match_rules: vec![
            MatchRule { id: 1, pattern: r"ERROR".into() },
            MatchRule { id: 2, pattern: r"WARN".into() },
        ],
        extraction_rules: vec![],
    };
    let compiled = compile_one(&rule);

    let line = make_log_line("ERROR happened");
    assert!(evaluate_rule(&rule, &line, &compiled).is_some());

    let line2 = make_log_line("WARN something");
    assert!(evaluate_rule(&rule, &line2, &compiled).is_some());

    let line3 = make_log_line("INFO ok");
    assert!(evaluate_rule(&rule, &line3, &compiled).is_none());
}

#[test]
fn test_multiple_match_rules_all_mode() {
    let rule = LogRule {
        id: 1,
        name: "test".into(),
        match_mode: MatchMode::All,
        match_rules: vec![
            MatchRule { id: 1, pattern: r"server".into() },
            MatchRule { id: 2, pattern: r"error".into() },
        ],
        extraction_rules: vec![],
    };
    let compiled = compile_one(&rule);

    let line = make_log_line("server error occurred");
    assert!(evaluate_rule(&rule, &line, &compiled).is_some());

    let line2 = make_log_line("server started fine");
    assert!(evaluate_rule(&rule, &line2, &compiled).is_none());
}

#[test]
fn test_all_mode_empty_match_list_matches_everything() {
    let rule = LogRule {
        id: 9,
        name: "empty".into(),
        match_mode: MatchMode::All,
        match_rules: vec![],
        extraction_rules: vec![],
    };
    let compiled = compile_one(&rule);
    let line = make_log_line("anything at all");
    assert!(evaluate_rule(&rule, &line, &compiled).is_some());
    let empty_line = make_log_line("");
    assert!(evaluate_rule(&rule, &empty_line, &compiled).is_some());
}

#[test]
fn test_parsed_extraction_with_capture_groups() {
    let rule = LogRule {
        id: 1,
        name: "parse_count".into(),
        match_mode: MatchMode::Any,
        match_rules: vec![MatchRule { id: 1, pattern: r"players: \d+".into() }],
        extraction_rules: vec![ExtractionRule {
            id: 1,
            extraction_type: ExtractionType::Parsed,
            state_key: "player_count".into(),
            pattern: Some(r"players: (?P<player_count>\d+)".into()),
            static_value: None,
            mode: ExtractionMode::Replace,
        }],
    };
    let compiled = compile_one(&rule);
    let line = make_log_line("server players: 42 online");
    let extracted = evaluate_rule(&rule, &line, &compiled).unwrap();
    assert_eq!(extracted.get("player_count"), Some(&StateValue::Integer(42)));
}

#[test]
fn test_static_value_assignment() {
    let rule = LogRule {
        id: 1,
        name: "tag_error".into(),
        match_mode: MatchMode::Any,
        match_rules: vec![MatchRule { id: 1, pattern: r"ERROR".into() }],
        extraction_rules: vec![ExtractionRule {
            id: 1,
            extraction_type: ExtractionType::Static,
            state_key: "status".into(),
            pattern: None,
            static_value: Some("error_detected".into()),
            mode: ExtractionMode::Replace,
        }],
    };
    let compiled = compile_one(&rule);
    let line = make_log_line("ERROR something");
    let extracted = evaluate_rule(&rule, &line, &compiled).unwrap();
    assert_eq!(extracted.get("status"), Some(&StateValue::String("error_detected".into())));
}

#[test]
fn test_invalid_regex_fails_compilation() {
    let rule = LogRule {
        id: 1,
        name: "bad".into(),
        match_mode: MatchMode::Any,
        match_rules: vec![MatchRule { id: 1, pattern: r"(unclosed".into() }],
        extraction_rules: vec![],
    };
    let rules = vec![rule];
    let compiled = compile_rules(&rules);
    assert!(matches!(compiled, Err(logium_core::model::AnalysisError::InvalidRegex(_))));
}

#[test]
fn test_parsed_extraction_coerces_types() {
    let rule = LogRule {
        id: 1,
        name: "coerce".into(),
        match_mode: MatchMode::Any,
        match_rules: vec![MatchRule { id: 1, pattern: r"v=".into() }],
        extraction_rules: vec![ExtractionRule {
            id: 1,
            extraction_type: ExtractionType::Parsed,
            state_key: "v".into(),
            pattern: Some(r"v=(?P<v>\S+)".into()),
            static_value: None,
            mode: ExtractionMode::Replace,
        }],
    };
    let compiled = compile_one(&rule);

    let extracted = evaluate_rule(&rule, &make_log_line("v=17"), &compiled).unwrap();
    assert_eq!(extracted.get("v"), Some(&StateValue::Integer(17)));

    let extracted = evaluate_rule(&rule, &make_log_line("v=true"), &compiled).unwrap();
    assert_eq!(extracted.get("v"), Some(&StateValue::Bool(true)));

    let extracted = evaluate_rule(&rule, &make_log_line("v=hello"), &compiled).unwrap();
    assert_eq!(extracted.get("v"), Some(&StateValue::String("hello".into())));

    let extracted = evaluate_rule(&rule, &make_log_line("v=2.5"), &compiled).unwrap();
    match extracted.get("v") {
        Some(StateValue::Float(n)) => assert_eq!(n.as_f64(), Some(2.5)),
        other => panic!("expected a float, got {:?}", other),
    }
}
