//! The rule compiler and evaluator: each rule's match patterns become
//! one regex set, each Parsed extraction's pattern its own regex, and
//! evaluation decides the match under Any/All mode and computes the
//! typed extraction map.

use vstd::prelude::*;

use crate::model::{
    AnalysisError, ExtractionRule, ExtractionType, LogLine, LogRule, MatchMode, StateValue,
    ValueRep,
};
use crate::numeric;
use crate::regexes::{
    re_capture_named, re_match, re_pattern, re_valid, regex_capture_named, regex_new,
    regex_set_matches, regex_set_new, rset_patterns, rset_valid,
};
use crate::state::ValueMap;
use crate::text;

verus! {

/// Pre-compiled regex data for a single rule.
pub struct CompiledRule {
    pub rule_id: u64,
    pub match_set: regex::RegexSet,
    pub match_count: usize,
    pub match_mode: MatchMode,
    pub extraction_regexes: Vec<(usize, regex::Regex)>,
}

/// The pattern texts of a rule's match rules, in order.
pub open spec fn match_patterns(rule: LogRule) -> Seq<Seq<char>> {
    rule.match_rules@.map_values(|m: MatchRuleAlias| m.pattern@)
}

type MatchRuleAlias = crate::model::MatchRule;

/// The `(index, pattern)` pairs of the Parsed extractions that carry
/// a pattern, among the first `n` extraction rules, in order.
pub open spec fn parsed_list(rs: Seq<ExtractionRule>, n: int) -> Seq<(int, Seq<char>)>
    decreases n,
{
    if n <= 0 {
        Seq::empty()
    } else {
        parsed_list(rs, n - 1) + (if rs[n - 1].extraction_type is Parsed && rs[n
            - 1].pattern is Some {
            seq![(n - 1, rs[n - 1].pattern->Some_0@)]
        } else {
            Seq::<(int, Seq<char>)>::empty()
        })
    }
}

/// The compiled form faithfully mirrors the rule: same id, the match
/// set built from the rule's match patterns, and one compiled regex
/// per Parsed extraction with a pattern, tagged with its index.
pub open spec fn compiled_from(c: CompiledRule, rule: LogRule) -> bool {
    &&& c.rule_id == rule.id
    &&& rset_patterns(c.match_set) == match_patterns(rule)
    &&& c.match_count == rule.match_rules@.len()
    &&& c.match_mode == rule.match_mode
    &&& c.extraction_regexes@.map_values(|e: (usize, regex::Regex)| (e.0 as int, re_pattern(e.1)))
        == parsed_list(rule.extraction_rules@, rule.extraction_rules@.len() as int)
    &&& forall|k: int|
        0 <= k < c.extraction_regexes@.len() ==> (#[trigger] c.extraction_regexes@[k]).0
            < rule.extraction_rules@.len()
}

/// Whether every regex of a rule compiles: the match set as a whole
/// and each Parsed extraction's pattern.
pub open spec fn rule_compiles(rule: LogRule) -> bool {
    &&& rset_valid(match_patterns(rule))
    &&& forall|i: int|
        0 <= i < rule.extraction_rules@.len() ==> (((#[trigger] rule.extraction_rules@[i]).extraction_type is Parsed
            && rule.extraction_rules@[i].pattern is Some) ==> re_valid(
            rule.extraction_rules@[i].pattern->Some_0@,
        ))
}

/// Whether a rule matches a line's content: under Any some match
/// pattern matches; under All every one does (so a rule with no match
/// patterns matches every line).
pub open spec fn rule_matches_line(rule: LogRule, content: Seq<char>) -> bool {
    match rule.match_mode {
        MatchMode::Any => exists|i: int|
            0 <= i < match_patterns(rule).len() && re_match(
                #[trigger] match_patterns(rule)[i],
                content,
            ),
        MatchMode::All => forall|i: int|
            0 <= i < match_patterns(rule).len() ==> re_match(
                #[trigger] match_patterns(rule)[i],
                content,
            ),
    }
}

/// Under `MatchMode::All` a rule with an empty match list matches
/// every line.
pub proof fn lemma_all_mode_empty_matches(rule: LogRule, content: Seq<char>)
    requires
        rule.match_mode is All,
        rule.match_rules@.len() == 0,
    ensures
        rule_matches_line(rule, content),
{
}

/// The pattern the compiler recorded for an extraction rule with this
/// id: the first compiled entry whose index points at an extraction
/// rule with the same id.
pub open spec fn find_parsed_pattern(
    plist: Seq<(int, Seq<char>)>,
    rules: Seq<ExtractionRule>,
    id: u64,
) -> Option<Seq<char>>
    decreases plist.len(),
{
    if plist.len() == 0 {
        None
    } else if 0 <= plist[0].0 < rules.len() && rules[plist[0].0].id == id {
        Some(plist[0].1)
    } else {
        find_parsed_pattern(plist.skip(1), rules, id)
    }
}

/// The typed value a captured text coerces to: Integer, then Float,
/// then Bool for the literals `true` / `false`, else String.
pub open spec fn coerce_value(text: Seq<char>) -> ValueRep {
    if numeric::parse_i64_spec(text) is Some {
        ValueRep::Int(numeric::parse_i64_spec(text)->Some_0)
    } else if numeric::float_of_str(text) is Some {
        ValueRep::Flt(numeric::float_of_str(text)->Some_0)
    } else if text == "true"@ || text == "false"@ {
        ValueRep::Boo(text == "true"@)
    } else {
        ValueRep::Str(text)
    }
}

/// What one extraction rule contributes to the extraction map.
pub open spec fn extracted_entry(rule: LogRule, ext: ExtractionRule, content: Seq<char>) -> Option<
    ValueRep,
> {
    match ext.extraction_type {
        ExtractionType::Static => match ext.static_value {
            Some(v) => Some(ValueRep::Str(v@)),
            None => None,
        },
        ExtractionType::Clear => None,
        ExtractionType::Parsed => {
            let plist = parsed_list(rule.extraction_rules@, rule.extraction_rules@.len() as int);
            match find_parsed_pattern(plist, rule.extraction_rules@, ext.id) {
                Some(pat) => match re_capture_named(pat, content, ext.state_key@) {
                    Some(text) => Some(coerce_value(text)),
                    None => None,
                },
                None => None,
            }
        },
    }
}

/// The extraction map of a matched rule over the first `n` extraction
/// rules, built in declared order (a later rule with the same key
/// overwrites an earlier one).
pub open spec fn extract_map(rule: LogRule, content: Seq<char>, n: int) -> Map<Seq<char>, ValueRep>
    decreases n,
{
    if n <= 0 {
        Map::empty()
    } else {
        let prev = extract_map(rule, content, n - 1);
        let ext = rule.extraction_rules@[n - 1];
        match extracted_entry(rule, ext, content) {
            Some(v) => prev.insert(ext.state_key@, v),
            None => prev,
        }
    }
}

/// Compiles every rule: one regex set over its match patterns and one
/// regex per Parsed extraction pattern.  Fails with `InvalidRegex`
/// exactly when some rule's regexes do not compile.
pub fn compile_rules(rules: &Vec<LogRule>) -> (r: Result<Vec<CompiledRule>, AnalysisError>)
    ensures
        r is Ok <==> (forall|i: int| 0 <= i < rules@.len() ==> rule_compiles(#[trigger] rules@[i])),
        r matches Ok(cs) ==> cs@.len() == rules@.len() && (forall|i: int|
            0 <= i < rules@.len() ==> compiled_from(#[trigger] cs@[i], rules@[i])),
        r matches Err(e) ==> e is InvalidRegex,
{
    let mut compiled: Vec<CompiledRule> = Vec::new();
    let n = rules.len();
    let mut i: usize = 0;
    while i < n
        invariant
            i <= n,
            n == rules@.len(),
            compiled@.len() == i,
            forall|j: int| 0 <= j < i ==> compiled_from(#[trigger] compiled@[j], rules@[j]),
            forall|j: int| 0 <= j < i ==> rule_compiles(#[trigger] rules@[j]),
        decreases n - i,
    {
        let rule = &rules[i];
        let mut patterns: Vec<String> = Vec::new();
        let mc = rule.match_rules.len();
        let mut j: usize = 0;
        while j < mc
            invariant
                j <= mc,
                mc == rule.match_rules@.len(),
                patterns@.len() == j,
                forall|k: int| 0 <= k < j ==> (#[trigger] patterns@[k])@ == rule.match_rules@[k].pattern@,
            decreases mc - j,
        {
            patterns.push(rule.match_rules[j].pattern.clone());
            j = j + 1;
        }
        proof {
            assert(patterns@.map_values(|p: String| p@) =~= match_patterns(rules@[i as int]));
        }
        let match_set = match regex_set_new(&patterns) {
            Ok(s) => s,
            Err(e) => {
                proof {
                    assert(!rule_compiles(rules@[i as int]));
                }
                return Err(AnalysisError::InvalidRegex(e));
            },
        };
        let ec = rule.extraction_rules.len();
        let mut extraction_regexes: Vec<(usize, regex::Regex)> = Vec::new();
        let mut k: usize = 0;
        while k < ec
            invariant
                k <= ec,
                i < n,
                n == rules@.len(),
                *rule == rules@[i as int],
                ec == rule.extraction_rules@.len(),
                extraction_regexes@.map_values(
                    |e: (usize, regex::Regex)| (e.0 as int, re_pattern(e.1)),
                ) == parsed_list(rule.extraction_rules@, k as int),
                forall|m: int|
                    0 <= m < extraction_regexes@.len() ==> (#[trigger] extraction_regexes@[m]).0
                        < ec,
                forall|m: int|
                    0 <= m < k ==> (((#[trigger] rule.extraction_rules@[m]).extraction_type is Parsed
                        && rule.extraction_rules@[m].pattern is Some) ==> re_valid(
                        rule.extraction_rules@[m].pattern->Some_0@,
                    )),
            decreases ec - k,
        {
            let ghost pre = extraction_regexes@.map_values(
                |e: (usize, regex::Regex)| (e.0 as int, re_pattern(e.1)),
            );
            let ext = &rule.extraction_rules[k];
            let is_parsed = match ext.extraction_type {
                ExtractionType::Parsed => true,
                _ => false,
            };
            if is_parsed {
                match &ext.pattern {
                    Some(pat) => {
                        let re = match regex_new(pat.as_str()) {
                            Ok(re) => re,
                            Err(e) => {
                                proof {
                                    assert(rule.extraction_rules@[k as int].pattern->Some_0@
                                        == pat@);
                                    assert(!rule_compiles(rules@[i as int]));
                                }
                                return Err(AnalysisError::InvalidRegex(e));
                            },
                        };
                        extraction_regexes.push((k, re));
                        proof {
                            assert(extraction_regexes@.map_values(
                                |e: (usize, regex::Regex)| (e.0 as int, re_pattern(e.1)),
                            ) =~= parsed_list(rule.extraction_rules@, k + 1));
                        }
                    },
                    None => {
                        proof {
                            assert(extraction_regexes@.map_values(
                                |e: (usize, regex::Regex)| (e.0 as int, re_pattern(e.1)),
                            ) =~= parsed_list(rule.extraction_rules@, k + 1));
                        }
                    },
                }
            } else {
                proof {
                    assert(extraction_regexes@.map_values(
                        |e: (usize, regex::Regex)| (e.0 as int, re_pattern(e.1)),
                    ) =~= parsed_list(rule.extraction_rules@, k + 1));
                }
            }
            k = k + 1;
        }
        let mode = match rule.match_mode {
            MatchMode::Any => MatchMode::Any,
            MatchMode::All => MatchMode::All,
        };
        let c = CompiledRule {
            rule_id: rule.id,
            match_set,
            match_count: mc,
            match_mode: mode,
            extraction_regexes,
        };
        proof {
            assert(compiled_from(c, rules@[i as int]));
        }
        compiled.push(c);
        i = i + 1;
    }
    Ok(compiled)
}

/// In a strictly ascending sequence each element is at least its
/// index.
proof fn lemma_ascending_at_least_index(s: Seq<usize>)
    requires
        forall|k1: int, k2: int| 0 <= k1 < k2 < s.len() ==> s[k1] < s[k2],
    ensures
        forall|k: int| 0 <= k < s.len() ==> k <= #[trigger] s[k],
{
    assert forall|k: int| 0 <= k < s.len() implies k <= #[trigger] s[k] by {
        lemma_ascending_prefix(s, k);
    }
}

proof fn lemma_ascending_prefix(s: Seq<usize>, k: int)
    requires
        forall|k1: int, k2: int| 0 <= k1 < k2 < s.len() ==> s[k1] < s[k2],
        0 <= k < s.len(),
    ensures
        k <= s[k],
    decreases k,
{
    if k > 0 {
        lemma_ascending_prefix(s, k - 1);
    }
}

/// Evaluates a single rule against a log line: decides the match
/// under the rule's mode and, on a match, hands back the typed
/// extraction map (`extract_map`); `None` when the rule does not
/// match.
pub fn evaluate_rule(rule: &LogRule, line: &LogLine, compiled: &CompiledRule) -> (r: Option<
    ValueMap,
>)
    requires
        compiled_from(*compiled, *rule),
    ensures
        match r {
            Some(vm) => rule_matches_line(*rule, line.content@) && vm.wf() && vm@ == extract_map(
                *rule,
                line.content@,
                rule.extraction_rules@.len() as int,
            ),
            None => !rule_matches_line(*rule, line.content@),
        },
{
    let matched_idx = regex_set_matches(&compiled.match_set, line.content.as_str());
    let ghost pats = rset_patterns(compiled.match_set);
    let matched = match compiled.match_mode {
        MatchMode::Any => {
            if matched_idx.len() > 0 {
                proof {
                    let v = matched_idx@[0];
                    assert(matched_idx@.contains(v));
                    assert(re_match(pats[v as int], line.content@));
                }
                true
            } else {
                proof {
                    if rule_matches_line(*rule, line.content@) {
                        let i = choose|i: int|
                            0 <= i < match_patterns(*rule).len() && re_match(
                                #[trigger] match_patterns(*rule)[i],
                                line.content@,
                            );
                        assert(matched_idx@.contains(i as usize));
                    }
                }
                false
            }
        },
        MatchMode::All => {
            if matched_idx.len() == compiled.match_count {
                proof {
                    lemma_ascending_at_least_index(matched_idx@);
                    assert forall|i: int|
                        0 <= i < match_patterns(*rule).len() implies re_match(
                        #[trigger] match_patterns(*rule)[i],
                        line.content@,
                    ) by {
                        lemma_dense_identity(matched_idx@, pats.len() as int);
                        assert(matched_idx@[i] == i as usize);
                        assert(matched_idx@.contains(i as usize));
                    }
                }
                true
            } else {
                proof {
                    if rule_matches_line(*rule, line.content@) {
                        assert forall|i: int|
                            0 <= i < pats.len() implies matched_idx@.contains(
                            #[trigger] (i as usize),
                        ) by {
                            assert(re_match(pats[i], line.content@));
                        }
                        lemma_all_matched_len(matched_idx@, pats.len() as int);
                    }
                }
                false
            }
        },
    };
    if !matched {
        return None;
    }
    let mut extracted = ValueMap::new();
    let ec = rule.extraction_rules.len();
    let mut i: usize = 0;
    while i < ec
        invariant
            i <= ec,
            ec == rule.extraction_rules@.len(),
            compiled_from(*compiled, *rule),
            extracted.wf(),
            extracted@ == extract_map(*rule, line.content@, i as int),
        decreases ec - i,
    {
        let ext = &rule.extraction_rules[i];
        match ext.extraction_type {
            ExtractionType::Static => {
                match &ext.static_value {
                    Some(val) => {
                        extracted.insert(ext.state_key.clone(), StateValue::String(val.clone()));
                    },
                    None => {
                    },
                }
            },
            ExtractionType::Clear => {
            },
            ExtractionType::Parsed => {
                match find_regex_for(compiled, rule, ext.id) {
                    Some(re) => {
                        match regex_capture_named(re, line.content.as_str(), ext.state_key.as_str())
                             {
                            Some(text) => {
                                let value = coerce_text(text);
                                extracted.insert(ext.state_key.clone(), value);
                            },
                            None => {
                            },
                        }
                    },
                    None => {
                    },
                }
            },
        }
        i = i + 1;
    }
    Some(extracted)
}

/// In a strictly ascending sequence of values below `n` whose length
/// is `n`, the `k`-th element is `k`.
proof fn lemma_dense_identity(s: Seq<usize>, n: int)
    requires
        forall|k1: int, k2: int| 0 <= k1 < k2 < s.len() ==> s[k1] < s[k2],
        forall|k: int| 0 <= k < s.len() ==> (#[trigger] s[k]) < n,
        s.len() == n,
    ensures
        forall|k: int| 0 <= k < s.len() ==> (#[trigger] s[k]) == k,
{
    lemma_ascending_at_least_index(s);
    assert forall|k: int| 0 <= k < s.len() implies (#[trigger] s[k]) == k by {
        lemma_descending_prefix(s, n, k);
    }
}

proof fn lemma_descending_prefix(s: Seq<usize>, n: int, k: int)
    requires
        forall|k1: int, k2: int| 0 <= k1 < k2 < s.len() ==> s[k1] < s[k2],
        forall|j: int| 0 <= j < s.len() ==> (#[trigger] s[j]) < n,
        s.len() == n,
        0 <= k < s.len(),
    ensures
        s[k] <= k,
    decreases n - k,
{
    if k < s.len() - 1 {
        lemma_descending_prefix(s, n, k + 1);
    }
}

/// If every pattern matches, the matched-index list has an entry for
/// each pattern, so its length is the pattern count.
proof fn lemma_all_matched_len(s: Seq<usize>, n: int)
    requires
        forall|k1: int, k2: int| 0 <= k1 < k2 < s.len() ==> s[k1] < s[k2],
        forall|k: int| 0 <= k < s.len() ==> (#[trigger] s[k]) < n,
        forall|i: int| 0 <= i < n ==> s.contains(#[trigger] (i as usize)),
        0 <= n <= usize::MAX,
    ensures
        s.len() == n,
{
    lemma_ascending_at_least_index(s);
    if s.len() > n {
        assert(s[n as int] >= n);
    }
    lemma_all_contained_min_len(s, n);
}

/// An ascending sequence that contains every value below `n` has at
/// least `n` entries.
proof fn lemma_all_contained_min_len(s: Seq<usize>, n: int)
    requires
        forall|k1: int, k2: int| 0 <= k1 < k2 < s.len() ==> s[k1] < s[k2],
        forall|i: int| 0 <= i < n ==> s.contains(#[trigger] (i as usize)),
        0 <= n <= usize::MAX,
    ensures
        s.len() >= n,
    decreases n,
{
    if n > 0 {
        assert(s.contains((n - 1) as usize));
        let p = choose|p: int| 0 <= p < s.len() && s[p] == (n - 1) as usize;
        let t = s.take(p);
        assert(forall|k1: int, k2: int| 0 <= k1 < k2 < t.len() ==> t[k1] < t[k2]);
        assert forall|i: int| 0 <= i < n - 1 implies t.contains(#[trigger] (i as usize)) by {
            assert(s.contains(i as usize));
            let q = choose|q: int| 0 <= q < s.len() && s[q] == i as usize;
            if q > p {
                assert(s[p] < s[q]);
            }
            assert(s[q] != s[p]);
            assert(q < p);
            assert(t[q] == s[q]);
        }
        lemma_all_contained_min_len(t, n - 1);
    }
}

/// Finds the compiled regex recorded for the extraction rule with
/// this id (`find_parsed_pattern`).
fn find_regex_for<'a>(compiled: &'a CompiledRule, rule: &LogRule, id: u64) -> (r: Option<
    &'a regex::Regex,
>)
    requires
        compiled_from(*compiled, *rule),
    ensures
        match r {
            Some(re) => find_parsed_pattern(
                parsed_list(rule.extraction_rules@, rule.extraction_rules@.len() as int),
                rule.extraction_rules@,
                id,
            ) == Some(re_pattern(*re)),
            None => find_parsed_pattern(
                parsed_list(rule.extraction_rules@, rule.extraction_rules@.len() as int),
                rule.extraction_rules@,
                id,
            ) is None,
        },
{
    let ghost plist = parsed_list(rule.extraction_rules@, rule.extraction_rules@.len() as int);
    let n = compiled.extraction_regexes.len();
    let mut i: usize = 0;
    proof {
        assert(plist.skip(0) =~= plist);
    }
    while i < n
        invariant
            i <= n,
            n == compiled.extraction_regexes@.len(),
            compiled_from(*compiled, *rule),
            plist == parsed_list(rule.extraction_rules@, rule.extraction_rules@.len() as int),
            find_parsed_pattern(plist, rule.extraction_rules@, id) == find_parsed_pattern(
                plist.skip(i as int),
                rule.extraction_rules@,
                id,
            ),
        decreases n - i,
    {
        let idx = compiled.extraction_regexes[i].0;
        proof {
            assert(plist[i as int] == (idx as int, re_pattern(
                compiled.extraction_regexes@[i as int].1,
            )));
            assert(plist.skip(i as int)[0] == plist[i as int]);
            assert(plist.skip(i as int).skip(1) =~= plist.skip(i + 1));
        }
        if rule.extraction_rules[idx].id == id {
            return Some(&compiled.extraction_regexes[i].1);
        }
        i = i + 1;
    }
    proof {
        assert(plist.skip(n as int) =~= Seq::<(int, Seq<char>)>::empty());
    }
    None
}

/// Coerces a captured text to a typed value (`coerce_value`).
fn coerce_text(text: String) -> (r: StateValue)
    ensures
        r@ == coerce_value(text@),
{
    match numeric::parse_i64(text.as_str()) {
        Some(i) => StateValue::Integer(i),
        None => {
            match numeric::num_from_str(text.as_str()) {
                Some(n) => StateValue::Float(n),
                None => {
                    if text::str_eq(text.as_str(), "true") {
                        StateValue::Bool(true)
                    } else if text::str_eq(text.as_str(), "false") {
                        StateValue::Bool(false)
                    } else {
                        StateValue::String(text)
                    }
                },
            }
        },
    }
}

} // verus!
