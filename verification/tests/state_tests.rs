use logium_core::model::{
    ExtractionMode, ExtractionRule, ExtractionType, Source, StateValue,
};
use logium_core::state::{StateManager, ValueMap};
use logium_core::times::{parse_datetime, Timestamp};

fn test_ts() -> Timestamp {
    parse_datetime("2024-01-01 00:00:00", "%Y-%m-%d %H:%M:%S").unwrap()
}

fn one_source() -> Vec<Source> {
    vec![Source { id: 1, name: "src1".into(), template_id: 1, file_path: "".into() }]
}

fn static_rule(key: &str, value: &str, mode: ExtractionMode) -> ExtractionRule {
    ExtractionRule {
        id: 1,
        extraction_type: ExtractionType::Static,
        state_key: key.into(),
        pattern: None,
        static_value: Some(value.into()),
        mode,
    }
}

fn seed(sm: &mut StateManager, key: &str, value: &str) {
    let rules = vec![static_rule(key, value, ExtractionMode::Replace)];
    sm.apply_mutations(1, &ValueMap::new(), &rules, test_ts());
}

#[test]
fn test_replace_mode() {
    let sources = one_source();
    let mut sm = StateManager::new(&sources);
    seed(&mut sm, "key", "old");

    let extractions = ValueMap::new();
    let rules = vec![static_rule("key", "new", ExtractionMode::Replace)];
    sm.apply_mutations(1, &extractions, &rules, test_ts());

    assert_eq!(sm.get_state_by_name("src1", "key"), Some(&StateValue::String("new".into())));
}

#[test]
fn test_accumulate_mode_strings() {
    let sources = one_source();
    let mut sm = StateManager::new(&sources);
    seed(&mut sm, "tags", "a");

    let extractions = ValueMap::new();
    let rules = vec![static_rule("tags", "b", ExtractionMode::Accumulate)];
    sm.apply_mutations(1, &extractions, &rules, test_ts());

    assert_eq!(sm.get_state_by_name("src1", "tags"), Some(&StateValue::String("a,b".into())));
}

#[test]
fn test_accumulate_mode_integers() {
    let sources = one_source();
    let mut sm = StateManager::new(&sources);

    let mut seed_extractions = ValueMap::new();
    seed_extractions.insert("count".into(), StateValue::Integer(10));
    let parsed_rule = ExtractionRule {
        id: 1,
        extraction_type: ExtractionType::Parsed,
        state_key: "count".into(),
        pattern: Some(r"(?P<count>\d+)".into()),
        static_value: None,
        mode: ExtractionMode::Replace,
    };
    sm.apply_mutations(1, &seed_extractions, &vec![parsed_rule], test_ts());

    let mut extractions = ValueMap::new();
    extractions.insert("count".into(), StateValue::Integer(5));
    let rules = vec![ExtractionRule {
        id: 1,
        extraction_type: ExtractionType::Parsed,
        state_key: "count".into(),
        pattern: Some(r"(?P<count>\d+)".into()),
        static_value: None,
        mode: ExtractionMode::Accumulate,
    }];
    sm.apply_mutations(1, &extractions, &rules, test_ts());

    assert_eq!(sm.get_state_by_name("src1", "count"), Some(&StateValue::Integer(15)));
}

#[test]
fn test_clear_type() {
    let sources = one_source();
    let mut sm = StateManager::new(&sources);
    seed(&mut sm, "key", "val");

    let extractions = ValueMap::new();
    let rules = vec![ExtractionRule {
        id: 1,
        extraction_type: ExtractionType::Clear,
        state_key: "key".into(),
        pattern: None,
        static_value: None,
        mode: ExtractionMode::Replace,
    }];
    sm.apply_mutations(1, &extractions, &rules, test_ts());

    assert!(sm.get_state_by_name("src1", "key").is_none());
}

#[test]
fn test_apply_mutations_returns_changes_on_replace() {
    let sources = one_source();
    let mut sm = StateManager::new(&sources);
    seed(&mut sm, "key", "old");

    let extractions = ValueMap::new();
    let rules = vec![static_rule("key", "new", ExtractionMode::Replace)];
    let changes = sm.apply_mutations(1, &extractions, &rules, test_ts());

    assert_eq!(changes.len(), 1);
    assert_eq!(changes[0].0, "key");
    assert_eq!(changes[0].1, Some(StateValue::String("old".into())));
    assert_eq!(changes[0].2, Some(StateValue::String("new".into())));
}

#[test]
fn test_apply_mutations_returns_changes_on_clear() {
    let sources = one_source();
    let mut sm = StateManager::new(&sources);
    seed(&mut sm, "key", "val");

    let extractions = ValueMap::new();
    let rules = vec![ExtractionRule {
        id: 1,
        extraction_type: ExtractionType::Clear,
        state_key: "key".into(),
        pattern: None,
        static_value: None,
        mode: ExtractionMode::Replace,
    }];
    let changes = sm.apply_mutations(1, &extractions, &rules, test_ts());

    assert_eq!(changes.len(), 1);
    assert_eq!(changes[0].0, "key");
    assert_eq!(changes[0].1, Some(StateValue::String("val".into())));
    assert_eq!(changes[0].2, None);
}

#[test]
fn test_apply_mutations_returns_changes_on_first_set() {
    let sources = one_source();
    let mut sm = StateManager::new(&sources);

    let extractions = ValueMap::new();
    let rules = vec![static_rule("key", "val", ExtractionMode::Replace)];
    let changes = sm.apply_mutations(1, &extractions, &rules, test_ts());

    assert_eq!(changes.len(), 1);
    assert_eq!(changes[0].0, "key");
    assert_eq!(changes[0].1, None);
    assert_eq!(changes[0].2, Some(StateValue::String("val".into())));
}

#[test]
fn test_apply_mutations_skips_noop() {
    let sources = one_source();
    let mut sm = StateManager::new(&sources);
    seed(&mut sm, "key", "same");

    let extractions = ValueMap::new();
    let rules = vec![static_rule("key", "same", ExtractionMode::Replace)];
    let changes = sm.apply_mutations(1, &extractions, &rules, test_ts());

    assert!(changes.is_empty());
}

#[test]
fn test_accumulate_twice_equals_accumulating_the_sum() {
    // integers: 3 then 5 equals one write of 8 on top of the same start
    let sources = one_source();
    let mut a = StateManager::new(&sources);
    let mut b = StateManager::new(&sources);
    let acc = |v: i64| {
        let mut ex = ValueMap::new();
        ex.insert("n".into(), StateValue::Integer(v));
        (
            ex,
            vec![ExtractionRule {
                id: 1,
                extraction_type: ExtractionType::Parsed,
                state_key: "n".into(),
                pattern: Some(r"(?P<n>\d+)".into()),
                static_value: None,
                mode: ExtractionMode::Accumulate,
            }],
        )
    };
    let (e1, r1) = acc(7);
    a.apply_mutations(1, &e1, &r1, test_ts());
    b.apply_mutations(1, &e1, &r1, test_ts());
    let (e2, r2) = acc(3);
    a.apply_mutations(1, &e2, &r2, test_ts());
    let (e3, r3) = acc(5);
    a.apply_mutations(1, &e3, &r3, test_ts());
    let (e4, r4) = acc(8);
    b.apply_mutations(1, &e4, &r4, test_ts());
    assert_eq!(a.get_state_by_name("src1", "n"), b.get_state_by_name("src1", "n"));
    assert_eq!(a.get_state_by_name("src1", "n"), Some(&StateValue::Integer(15)));
}

#[test]
fn test_cross_type_value_equality() {
    let a = StateValue::Integer(3);
    let n = serde_json::Number::from_f64(3.0).unwrap();
    let b = StateValue::Float(n);
    assert!(a.value_eq(&b));
    assert!(b.value_eq(&a));
    let c = StateValue::String("3".into());
    assert!(!a.value_eq(&c));
}
