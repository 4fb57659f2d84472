use logium_core::model::{
    ExtractionMode, ExtractionRule, ExtractionType, Operand, Operator, Pattern, PatternPredicate,
    Source, StateValue,
};
use logium_core::pattern::{evaluate_predicate, PatternEvaluator};
use logium_core::state::{StateManager, ValueMap};
use logium_core::times::{parse_datetime, Timestamp};

fn test_ts() -> Timestamp {
    parse_datetime("2024-01-01 00:00:00", "%Y-%m-%d %H:%M:%S").unwrap()
}

fn make_sources() -> Vec<Source> {
    vec![
        Source { id: 1, name: "server".into(), template_id: 1, file_path: "".into() },
        Source { id: 2, name: "client".into(), template_id: 1, file_path: "".into() },
    ]
}

fn set_state(sm: &mut StateManager, source_id: u64, key: &str, value: StateValue) {
    let mut ex = ValueMap::new();
    ex.insert(key.to_string(), value);
    let rules = vec![ExtractionRule {
        id: 1,
        extraction_type: ExtractionType::Parsed,
        state_key: key.to_string(),
        pattern: Some(r"(?P<x>.*)".into()),
        static_value: None,
        mode: ExtractionMode::Replace,
    }];
    sm.apply_mutations(source_id, &ex, &rules, test_ts());
}

#[test]
fn test_simple_two_predicate_pattern() {
    let sources = make_sources();
    let mut sm = StateManager::new(&sources);

    let pattern = Pattern {
        id: 1,
        name: "test_pattern".into(),
        predicates: vec![
            PatternPredicate {
                source_name: "server".into(),
                state_key: "status".into(),
                operator: Operator::Eq,
                operand: Operand::Literal(StateValue::String("running".into())),
            },
            PatternPredicate {
                source_name: "server".into(),
                state_key: "players".into(),
                operator: Operator::Gt,
                operand: Operand::Literal(StateValue::Integer(0)),
            },
        ],
    };
    let patterns = vec![pattern];
    let mut eval = PatternEvaluator::new(&patterns);

    let matches = eval.evaluate_patterns(&patterns, &sm);
    assert!(matches.is_empty());

    set_state(&mut sm, 1, "status", StateValue::String("running".into()));
    let matches = eval.evaluate_patterns(&patterns, &sm);
    assert!(matches.is_empty());

    set_state(&mut sm, 1, "players", StateValue::Integer(5));
    let matches = eval.evaluate_patterns(&patterns, &sm);
    assert_eq!(matches.len(), 1);
    assert_eq!(matches[0].pattern_id, 1);
}

#[test]
fn test_predicate_invalidation_resets_progress() {
    let sources = make_sources();
    let mut sm = StateManager::new(&sources);

    let pattern = Pattern {
        id: 1,
        name: "test".into(),
        predicates: vec![
            PatternPredicate {
                source_name: "server".into(),
                state_key: "status".into(),
                operator: Operator::Eq,
                operand: Operand::Literal(StateValue::String("running".into())),
            },
            PatternPredicate {
                source_name: "server".into(),
                state_key: "count".into(),
                operator: Operator::Gt,
                operand: Operand::Literal(StateValue::Integer(10)),
            },
        ],
    };
    let patterns = vec![pattern];
    let mut eval = PatternEvaluator::new(&patterns);

    set_state(&mut sm, 1, "status", StateValue::String("running".into()));
    eval.evaluate_patterns(&patterns, &sm);
    assert_eq!(eval.progress[0], 1);

    set_state(&mut sm, 1, "status", StateValue::String("stopped".into()));
    set_state(&mut sm, 1, "count", StateValue::Integer(20));
    let matches = eval.evaluate_patterns(&patterns, &sm);
    assert!(matches.is_empty());
    assert_eq!(eval.progress[0], 0);
}

#[test]
fn test_pattern_refire_after_match() {
    let sources = make_sources();
    let mut sm = StateManager::new(&sources);

    let pattern = Pattern {
        id: 1,
        name: "test".into(),
        predicates: vec![PatternPredicate {
            source_name: "server".into(),
            state_key: "flag".into(),
            operator: Operator::Eq,
            operand: Operand::Literal(StateValue::Bool(true)),
        }],
    };
    let patterns = vec![pattern];
    let mut eval = PatternEvaluator::new(&patterns);

    set_state(&mut sm, 1, "flag", StateValue::Bool(true));
    let matches = eval.evaluate_patterns(&patterns, &sm);
    assert_eq!(matches.len(), 1);
    assert_eq!(eval.progress[0], 0);

    let matches = eval.evaluate_patterns(&patterns, &sm);
    assert_eq!(matches.len(), 1);
}

#[test]
fn test_empty_pattern_never_matches() {
    let sources = make_sources();
    let mut sm = StateManager::new(&sources);
    set_state(&mut sm, 1, "anything", StateValue::Integer(1));
    let patterns = vec![Pattern { id: 7, name: "empty".into(), predicates: vec![] }];
    let mut eval = PatternEvaluator::new(&patterns);
    for _ in 0..5 {
        assert!(eval.evaluate_patterns(&patterns, &sm).is_empty());
    }
    assert_eq!(eval.progress[0], 0);
}

#[test]
fn test_cross_source_state_reference() {
    let sources = make_sources();
    let mut sm = StateManager::new(&sources);

    let pattern = Pattern {
        id: 1,
        name: "cross_source".into(),
        predicates: vec![PatternPredicate {
            source_name: "server".into(),
            state_key: "region".into(),
            operator: Operator::Eq,
            operand: Operand::StateRef {
                source_name: "client".into(),
                state_key: "region".into(),
            },
        }],
    };
    let patterns = vec![pattern];
    let mut eval = PatternEvaluator::new(&patterns);

    set_state(&mut sm, 1, "region", StateValue::String("us-east".into()));
    set_state(&mut sm, 2, "region", StateValue::String("eu-west".into()));
    let matches = eval.evaluate_patterns(&patterns, &sm);
    assert!(matches.is_empty());

    set_state(&mut sm, 2, "region", StateValue::String("us-east".into()));
    let matches = eval.evaluate_patterns(&patterns, &sm);
    assert_eq!(matches.len(), 1);
}

#[test]
fn test_all_operators() {
    let sources = make_sources();
    let mut sm = StateManager::new(&sources);
    set_state(&mut sm, 1, "val", StateValue::Integer(10));
    set_state(&mut sm, 1, "name", StateValue::String("hello world".into()));

    let pred = |op: Operator, operand: Operand, key: &str| PatternPredicate {
        source_name: "server".into(),
        state_key: key.into(),
        operator: op,
        operand,
    };

    assert!(evaluate_predicate(
        &pred(Operator::Eq, Operand::Literal(StateValue::Integer(10)), "val"),
        &sm,
    ));
    assert!(evaluate_predicate(
        &pred(Operator::Neq, Operand::Literal(StateValue::Integer(5)), "val"),
        &sm,
    ));
    assert!(evaluate_predicate(
        &pred(Operator::Gt, Operand::Literal(StateValue::Integer(5)), "val"),
        &sm,
    ));
    assert!(evaluate_predicate(
        &pred(Operator::Lt, Operand::Literal(StateValue::Integer(20)), "val"),
        &sm,
    ));
    assert!(evaluate_predicate(
        &pred(Operator::Gte, Operand::Literal(StateValue::Integer(10)), "val"),
        &sm,
    ));
    assert!(evaluate_predicate(
        &pred(Operator::Lte, Operand::Literal(StateValue::Integer(10)), "val"),
        &sm,
    ));
    assert!(evaluate_predicate(
        &pred(Operator::Contains, Operand::Literal(StateValue::String("world".into())), "name"),
        &sm,
    ));
    assert!(evaluate_predicate(
        &pred(Operator::Exists, Operand::Literal(StateValue::Bool(false)), "val"),
        &sm,
    ));
    assert!(!evaluate_predicate(
        &pred(Operator::Exists, Operand::Literal(StateValue::Bool(false)), "nonexistent"),
        &sm,
    ));
}
