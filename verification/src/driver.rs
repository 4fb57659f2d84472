//! The analysis driver: per-source parsing and rule evaluation
//! (phase one), then the chronological merge with state mutation and
//! pattern evaluation (phase two), in sync and streaming forms.

use vstd::prelude::*;

use crate::lines::{source_entries, EntryErr, LineRep, LogLineIterator};
use crate::merge::{merge_seq, pick, pick_exec, ts_of};
use crate::model::{
    AnalysisError, LogLine, LogRule, Pattern, Source, SourceTemplate, StateValue,
    TimestampTemplate, TrackedRep, ValueRep,
};
use crate::pattern::{fired_ids, pattern_step, PatternEvaluator, PatternMatch};
use crate::rules::{compile_rules, compiled_from, evaluate_rule, extract_map, rule_compiles,
    rule_matches_line, CompiledRule};
use crate::state::{
    apply_fields, apply_rules, fields_view, seq_put, snapshot_of, state_in, ChangeRep, Snapshot,
    StateManager, ValueMap,
};
use crate::times::Timestamp;

verus! {

/// Optional start/end bounds: lines before `start` are skipped, the
/// run stops at the first line after `end` (the stream is
/// chronological).
#[derive(Debug, Clone)]
pub struct TimeRange {
    pub start: Option<Timestamp>,
    pub end: Option<Timestamp>,
}

impl Default for TimeRange {
    /// No bounds: every line passes.
    fn default() -> (r: TimeRange)
        ensures
            r.start is None && r.end is None,
    {
        TimeRange { start: None, end: None }
    }
}

/// Whether a timestamp passes the range's lower bound.
pub open spec fn after_start(range: TimeRange, ts: Timestamp) -> bool {
    match range.start {
        Some(s) => s.spec_le(ts),
        None => true,
    }
}

/// Whether a timestamp passes the range's upper bound.
pub open spec fn before_end(range: TimeRange, ts: Timestamp) -> bool {
    match range.end {
        Some(e) => ts.spec_le(e),
        None => true,
    }
}

/// A rule firing on one line.
#[derive(Debug, Clone)]
pub struct RuleMatch {
    pub rule_id: u64,
    pub source_id: u64,
    pub log_line: LogLine,
    pub extracted_state: ValueMap,
}

/// The model of a rule firing.
pub struct RuleMatchRep {
    pub rule_id: u64,
    pub source_id: u64,
    pub log_line: LineRep,
    pub extracted_state: Map<Seq<char>, ValueRep>,
}

impl View for RuleMatch {
    type V = RuleMatchRep;

    open spec fn view(&self) -> RuleMatchRep {
        RuleMatchRep {
            rule_id: self.rule_id,
            source_id: self.source_id,
            log_line: self.log_line@,
            extracted_state: self.extracted_state@,
        }
    }
}

/// A state change event: one diff of one source's state.
#[derive(Debug, Clone)]
pub struct StateChange {
    pub timestamp: Timestamp,
    pub source_id: u64,
    pub source_name: String,
    pub state_key: String,
    pub old_value: Option<StateValue>,
    pub new_value: Option<StateValue>,
    pub rule_id: u64,
}

/// The model of a state change event.
pub struct StateChangeRep {
    pub timestamp: Timestamp,
    pub source_id: u64,
    pub source_name: Seq<char>,
    pub state_key: Seq<char>,
    pub old_value: Option<ValueRep>,
    pub new_value: Option<ValueRep>,
    pub rule_id: u64,
}

impl View for StateChange {
    type V = StateChangeRep;

    open spec fn view(&self) -> StateChangeRep {
        StateChangeRep {
            timestamp: self.timestamp,
            source_id: self.source_id,
            source_name: self.source_name@,
            state_key: self.state_key@,
            old_value: crate::state::opt_val_view(self.old_value),
            new_value: crate::state::opt_val_view(self.new_value),
            rule_id: self.rule_id,
        }
    }
}

impl StateChange {
    /// A copy with the same fields.
    pub fn clone_sc(&self) -> (r: StateChange)
        ensures
            r@ == self@,
    {
        StateChange {
            timestamp: self.timestamp,
            source_id: self.source_id,
            source_name: self.source_name.clone(),
            state_key: self.state_key.clone(),
            old_value: match &self.old_value {
                Some(v) => Some(v.clone_value()),
                None => None,
            },
            new_value: match &self.new_value {
                Some(v) => Some(v.clone_value()),
                None => None,
            },
            rule_id: self.rule_id,
        }
    }
}

impl RuleMatch {
    /// A copy with the same fields.
    pub fn clone_rm(&self) -> (r: RuleMatch)
        ensures
            r@ == self@,
    {
        RuleMatch {
            rule_id: self.rule_id,
            source_id: self.source_id,
            log_line: self.log_line.clone_line(),
            extracted_state: self.extracted_state.clone_map(),
        }
    }
}

/// Combined analysis result.
#[derive(Debug, Clone)]
pub struct AnalysisResult {
    pub rule_matches: Vec<RuleMatch>,
    pub pattern_matches: Vec<PatternMatch>,
    pub state_changes: Vec<StateChange>,
}

/// Events the streaming driver emits.
#[derive(Debug, Clone)]
pub enum AnalysisEvent {
    RuleMatch(RuleMatch),
    PatternMatch(PatternMatch),
    StateChange(StateChange),
    Progress { lines_processed: u64 },
    Complete {
        total_lines: u64,
        total_rule_matches: u64,
        total_pattern_matches: u64,
        total_state_changes: u64,
    },
    Error { message: String },
}

/// A log line with its pre-computed rule evaluations from phase one.
pub struct ProcessedLine {
    pub line: LogLine,
    pub rule_matches: Vec<(u64, ValueMap)>,
    pub json_fields: Option<Vec<(String, StateValue)>>,
}

/// The model of a processed line.
pub struct ProcRep {
    pub line: LineRep,
    pub rule_matches: Seq<(u64, Map<Seq<char>, ValueRep>)>,
    pub json_fields: Option<Seq<(Seq<char>, ValueRep)>>,
}

impl View for ProcessedLine {
    type V = ProcRep;

    open spec fn view(&self) -> ProcRep {
        ProcRep {
            line: self.line@,
            rule_matches: self.rule_matches@.map_values(|m: (u64, ValueMap)| (m.0, m.1@)),
            json_fields: match self.json_fields {
                Some(fs) => Some(fields_view(fs@)),
                None => None,
            },
        }
    }
}

/// The last rule with a given id (a later definition wins).
pub open spec fn find_last_rule(rules: Seq<LogRule>, id: u64) -> Option<int>
    decreases rules.len(),
{
    if rules.len() == 0 {
        None
    } else if rules.last().id == id {
        Some(rules.len() - 1)
    } else {
        find_last_rule(rules.drop_last(), id)
    }
}

/// The last source template with a given id.
pub open spec fn find_last_template(templates: Seq<SourceTemplate>, id: u64) -> Option<int>
    decreases templates.len(),
{
    if templates.len() == 0 {
        None
    } else if templates.last().id == id {
        Some(templates.len() - 1)
    } else {
        find_last_template(templates.drop_last(), id)
    }
}

/// The last timestamp template with a given id.
pub open spec fn find_last_ts_template(templates: Seq<TimestampTemplate>, id: u64) -> Option<int>
    decreases templates.len(),
{
    if templates.len() == 0 {
        None
    } else if templates.last().id == id {
        Some(templates.len() - 1)
    } else {
        find_last_ts_template(templates.drop_last(), id)
    }
}

/// The rule ids bound to a template: the union of all its rulesets'
/// lists, in ruleset order.
pub open spec fn ruleset_ids(rulesets: Seq<crate::model::Ruleset>, template_id: u64) -> Seq<u64>
    decreases rulesets.len(),
{
    if rulesets.len() == 0 {
        Seq::empty()
    } else {
        ruleset_ids(rulesets.drop_last(), template_id) + (if rulesets.last().template_id
            == template_id {
            rulesets.last().rule_ids@
        } else {
            Seq::empty()
        })
    }
}

/// The rule evaluations of one line under the template's rule ids, in
/// order: a rule id with no rule is skipped; a matching rule
/// contributes its id and extraction map.
pub open spec fn eval_line_rules(
    line: LineRep,
    rule_ids: Seq<u64>,
    rules: Seq<LogRule>,
    n: int,
) -> Seq<(u64, Map<Seq<char>, ValueRep>)>
    decreases n,
{
    if n <= 0 {
        Seq::empty()
    } else {
        let pre = eval_line_rules(line, rule_ids, rules, n - 1);
        match find_last_rule(rules, rule_ids[n - 1]) {
            Some(j) => if rule_matches_line(rules[j], line.content) {
                pre.push(
                    (
                        rule_ids[n - 1],
                        extract_map(rules[j], line.content, rules[j].extraction_rules@.len() as int),
                    ),
                )
            } else {
                pre
            },
            None => pre,
        }
    }
}

/// The auto-extracted fields of a JSON line: the object's entries in
/// key order, converted to state values, nulls skipped.
pub open spec fn json_fields_spec(entries: Seq<(Seq<char>, Seq<char>)>, n: int) -> Seq<
    (Seq<char>, ValueRep),
>
    decreases n,
{
    if n <= 0 {
        Seq::empty()
    } else {
        let pre = json_fields_spec(entries, n - 1);
        match crate::jsonx::json_state_of(entries[n - 1].1) {
            Some(v) => pre.push((entries[n - 1].0, v)),
            None => pre,
        }
    }
}

/// The processed form of one parsed line.
pub open spec fn proc_rep_of(
    line: LineRep,
    rule_ids: Seq<u64>,
    rules: Seq<LogRule>,
    is_json: bool,
) -> ProcRep {
    ProcRep {
        line: line,
        rule_matches: eval_line_rules(line, rule_ids, rules, rule_ids.len() as int),
        json_fields: if is_json {
            match crate::jsonx::json_object_of(line.raw) {
                Some(entries) => Some(json_fields_spec(entries, entries.len() as int)),
                None => None,
            }
        } else {
            None
        },
    }
}

/// The index of the first entry that failed to parse.
pub open spec fn first_bad(entries: Seq<Result<LineRep, EntryErr>>) -> Option<int>
    decreases entries.len(),
{
    if entries.len() == 0 {
        None
    } else if entries[0] is Err {
        Some(0int)
    } else {
        match first_bad(entries.skip(1)) {
            Some(i) => Some(i + 1),
            None => None,
        }
    }
}

/// Looks a rule and its compiled form up by id (the last definition
/// wins, as in a map built by insertion).
fn find_rule_exec<'a>(rules: &'a Vec<LogRule>, compiled: &'a Vec<CompiledRule>, id: u64) -> (r:
    Option<(&'a LogRule, &'a CompiledRule)>)
    requires
        compiled@.len() == rules@.len(),
        forall|i: int| 0 <= i < rules@.len() ==> compiled_from(#[trigger] compiled@[i], rules@[i]),
    ensures
        match r {
            Some(pair) => {
                &&& find_last_rule(rules@, id) matches Some(j)
                &&& *pair.0 == rules@[j]
                &&& compiled_from(*pair.1, rules@[j])
            },
            None => find_last_rule(rules@, id) is None,
        },
{
    let n = rules.len();
    let mut i: usize = n;
    proof {
        assert(rules@.take(n as int) =~= rules@);
    }
    while i > 0
        invariant
            i <= n,
            n == rules@.len(),
            compiled@.len() == rules@.len(),
            forall|k: int| 0 <= k < n ==> compiled_from(#[trigger] compiled@[k], rules@[k]),
            find_last_rule(rules@, id) == find_last_rule(rules@.take(i as int), id),
        decreases i,
    {
        proof {
            assert(rules@.take(i as int).last() == rules@[i - 1]);
            assert(rules@.take(i as int).drop_last() =~= rules@.take(i - 1));
        }
        if rules[i - 1].id == id {
            return Some((&rules[i - 1], &compiled[i - 1]));
        }
        i = i - 1;
    }
    proof {
        assert(rules@.take(0) =~= Seq::<LogRule>::empty());
    }
    None
}

/// Reads a source's full line sequence and evaluates every applicable
/// rule on each line (phase one for one source): the parse results of
/// the text, each turned into a processed line, or the first error.
pub fn process_source(
    source: &Source,
    template: &SourceTemplate,
    ts_template: &TimestampTemplate,
    text: &str,
    rule_ids: &Vec<u64>,
    rules: &Vec<LogRule>,
    compiled: &Vec<CompiledRule>,
) -> (r: Result<Vec<ProcessedLine>, AnalysisError>)
    requires
        compiled@.len() == rules@.len(),
        forall|i: int| 0 <= i < rules@.len() ==> compiled_from(#[trigger] compiled@[i], rules@[i]),
    ensures
        r is Ok <==> crate::lines::source_regexes_valid(*template, *ts_template) && first_bad(
            entries_of(*source, *template, *ts_template, text@),
        ) is None,
        r matches Err(e) ==> (if !crate::lines::source_regexes_valid(*template, *ts_template) {
            e is InvalidRegex
        } else {
            let entries = entries_of(*source, *template, *ts_template, text@);
            first_bad(entries) matches Some(i) && entry_err_class(e, entries[i]->Err_0)
        }),
        r matches Ok(v) ==> {
            let entries = entries_of(*source, *template, *ts_template, text@);
            &&& v@.len() == entries.len()
            &&& forall|i: int|
                0 <= i < entries.len() ==> (#[trigger] v@[i])@ == proc_rep_of(
                    entries[i]->Ok_0,
                    rule_ids@,
                    rules@,
                    template.json_timestamp_field is Some,
                ) && v@[i].rule_matches@.len() <= rule_ids@.len()
            &&& forall|i: int|
                0 <= i < entries.len() ==> (#[trigger] v@[i]).wf_maps()
        },
{
    let mut it = match LogLineIterator::new(source, template, ts_template, text) {
        Ok(it) => it,
        Err(e) => {
            return Err(e);
        },
    };
    let ghost entries = entries_of(*source, *template, *ts_template, text@);
    let is_json = template.json_timestamp_field.is_some();
    let mut out: Vec<ProcessedLine> = Vec::new();
    let ghost mut consumed: int = 0;
    loop
        invariant
            it.wf(),
            crate::lines::source_regexes_valid(*template, *ts_template),
            entries == entries_of(*source, *template, *ts_template, text@),
            0 <= consumed <= entries.len(),
            it.remaining() == entries.skip(consumed),
            out@.len() == consumed,
            compiled@.len() == rules@.len(),
            forall|k: int|
                0 <= k < rules@.len() ==> compiled_from(#[trigger] compiled@[k], rules@[k]),
            forall|k: int| 0 <= k < consumed ==> entries[k] is Ok,
            forall|k: int|
                0 <= k < consumed ==> (#[trigger] out@[k])@ == proc_rep_of(
                    entries[k]->Ok_0,
                    rule_ids@,
                    rules@,
                    is_json,
                ) && out@[k].rule_matches@.len() <= rule_ids@.len() && out@[k].wf_maps(),
            is_json == (template.json_timestamp_field is Some),
        ensures
            consumed == entries.len(),
            forall|k: int| 0 <= k < entries.len() ==> entries[k] is Ok,
        decreases entries.len() - consumed,
    {
        proof {
            if consumed < entries.len() {
                assert(entries.skip(consumed)[0] == entries[consumed]);
                assert(entries.skip(consumed).skip(1) =~= entries.skip(consumed + 1));
            }
        }
        let next = it.next();
        match next {
            None => {
                proof {
                    assert(entries.skip(consumed).len() == 0);
                }
                break ;
            },
            Some(Err(e)) => {
                proof {
                    assert(entries.skip(consumed).len() > 0);
                    assert(entries[consumed] is Err);
                    lemma_first_bad_exact(entries, consumed);
                }
                return Err(e);
            },
            Some(Ok(line)) => {
                let p = process_line(line, is_json, rule_ids, rules, compiled);
                out.push(p);
                proof {
                    consumed = consumed + 1;
                }
            },
        }
    }
    proof {
        lemma_first_bad_none(entries);
    }
    Ok(out)
}

/// A failure preceded only by successes is the first failure.
proof fn lemma_first_bad_exact(entries: Seq<Result<LineRep, EntryErr>>, k: int)
    requires
        0 <= k < entries.len(),
        entries[k] is Err,
        forall|j: int| 0 <= j < k ==> (#[trigger] entries[j]) is Ok,
    ensures
        first_bad(entries) == Some(k),
    decreases k,
{
    if k > 0 {
        assert(forall|j: int|
            0 <= j < entries.len() - 1 ==> (#[trigger] entries.skip(1)[j]) == entries[j + 1]);
        lemma_first_bad_exact(entries.skip(1), k - 1);
    }
}

/// When every entry parses, there is no first failure.
proof fn lemma_first_bad_none(entries: Seq<Result<LineRep, EntryErr>>)
    requires
        forall|k: int| 0 <= k < entries.len() ==> (#[trigger] entries[k]) is Ok,
    ensures
        first_bad(entries) is None,
    decreases entries.len(),
{
    if entries.len() > 0 {
        assert(forall|k: int|
            0 <= k < entries.len() - 1 ==> (#[trigger] entries.skip(1)[k]) == entries[k + 1]);
        lemma_first_bad_none(entries.skip(1));
    }
}

/// The parse results of one source's text under its templates.
pub open spec fn entries_of(
    source: Source,
    template: SourceTemplate,
    ts_template: TimestampTemplate,
    text: Seq<char>,
) -> Seq<Result<LineRep, EntryErr>> {
    source_entries(
        text,
        source.id,
        ts_template.format@,
        crate::lines::opt_view(ts_template.extraction_regex),
        crate::lines::opt_view(template.continuation_regex),
        crate::lines::opt_view(template.content_regex),
        crate::lines::opt_view(template.json_timestamp_field),
        ts_template.default_year,
    )
}

impl ProcessedLine {
    /// Every contained map has distinct keys.
    pub open spec fn wf_maps(&self) -> bool {
        forall|k: int|
            0 <= k < self.rule_matches@.len() ==> (#[trigger] self.rule_matches@[k]).1.wf()
    }
}

/// Evaluates every applicable rule on one line and, in JSON mode,
/// converts the line's top-level fields (`proc_rep_of`).
fn process_line(
    line: LogLine,
    is_json: bool,
    rule_ids: &Vec<u64>,
    rules: &Vec<LogRule>,
    compiled: &Vec<CompiledRule>,
) -> (r: ProcessedLine)
    requires
        compiled@.len() == rules@.len(),
        forall|i: int| 0 <= i < rules@.len() ==> compiled_from(#[trigger] compiled@[i], rules@[i]),
    ensures
        r@ == proc_rep_of(line@, rule_ids@, rules@, is_json),
        r.wf_maps(),
        r.rule_matches@.len() <= rule_ids@.len(),
{
    let mut matches: Vec<(u64, ValueMap)> = Vec::new();
    let n = rule_ids.len();
    let mut i: usize = 0;
    while i < n
        invariant
            i <= n,
            n == rule_ids@.len(),
            compiled@.len() == rules@.len(),
            forall|k: int|
                0 <= k < rules@.len() ==> compiled_from(#[trigger] compiled@[k], rules@[k]),
            matches@.map_values(|m: (u64, ValueMap)| (m.0, m.1@)) == eval_line_rules(
                line@,
                rule_ids@,
                rules@,
                i as int,
            ),
            matches@.len() <= i,
            forall|k: int| 0 <= k < matches@.len() ==> (#[trigger] matches@[k]).1.wf(),
        decreases n - i,
    {
        let ghost pre = matches@.map_values(|m: (u64, ValueMap)| (m.0, m.1@));
        let rid = rule_ids[i];
        match find_rule_exec(rules, compiled, rid) {
            Some((rule, c)) => {
                match evaluate_rule(rule, &line, c) {
                    Some(vm) => {
                        matches.push((rid, vm));
                        proof {
                            assert(matches@.map_values(|m: (u64, ValueMap)| (m.0, m.1@))
                                =~= eval_line_rules(line@, rule_ids@, rules@, i + 1));
                        }
                    },
                    None => {
                        proof {
                            assert(matches@.map_values(|m: (u64, ValueMap)| (m.0, m.1@))
                                =~= eval_line_rules(line@, rule_ids@, rules@, i + 1));
                        }
                    },
                }
            },
            None => {
                proof {
                    assert(matches@.map_values(|m: (u64, ValueMap)| (m.0, m.1@))
                        =~= eval_line_rules(line@, rule_ids@, rules@, i + 1));
                }
            },
        }
        i = i + 1;
    }
    let json_fields: Option<Vec<(String, StateValue)>> = if is_json {
        match crate::jsonx::json_parse_object(line.raw.as_str()) {
            Some(entries) => {
                let ghost ereps = crate::jsonx::json_object_of(line.raw@)->Some_0;
                let m = entries.len();
                let mut fields: Vec<(String, StateValue)> = Vec::new();
                let mut j: usize = 0;
                while j < m
                    invariant
                        j <= m,
                        m == entries@.len(),
                        ereps.len() == entries@.len(),
                        forall|k: int|
                            0 <= k < entries@.len() ==> #[trigger] ereps[k] == (
                            entries@[k].0@,
                            crate::jsonx::json_rep(entries@[k].1),
                        ),
                        fields_view(fields@) == json_fields_spec(ereps, j as int),
                    decreases m - j,
                {
                    match crate::jsonx::json_value_to_state(&entries[j].1) {
                        Some(sv) => {
                            let key = entries[j].0.clone();
                            fields.push((key, sv));
                            proof {
                                assert(fields_view(fields@) =~= json_fields_spec(ereps, j + 1));
                            }
                        },
                        None => {
                            proof {
                                assert(fields_view(fields@) =~= json_fields_spec(ereps, j + 1));
                            }
                        },
                    }
                    j = j + 1;
                }
                Some(fields)
            },
            None => None,
        }
    } else {
        None
    };
    let r = ProcessedLine { line, rule_matches: matches, json_fields };
    proof {
        assert(r@.rule_matches =~= eval_line_rules(r.line@, rule_ids@, rules@, n as int));
    }
    r
}


/// The evolving phase-two state: the per-source state table in
/// first-touch order and each pattern's progress.
pub struct St {
    pub states: Seq<(u64, Map<Seq<char>, TrackedRep>)>,
    pub progress: Seq<usize>,
}

/// One line's phase-two output.
pub struct LineOut {
    pub changes: Seq<StateChangeRep>,
    pub rms: Seq<RuleMatchRep>,
    pub pms: Seq<crate::pattern::PatternMatchRep>,
}

/// The name a source id resolves to, or the empty string.
pub open spec fn name_or_empty(names: Map<u64, Seq<char>>, id: u64) -> Seq<char> {
    if names.dom().contains(id) {
        names[id]
    } else {
        Seq::empty()
    }
}

/// Diffs tagged with the line's timestamp, source and rule.
pub open spec fn tag_changes(
    cs: Seq<ChangeRep>,
    ts: Timestamp,
    sid: u64,
    name: Seq<char>,
    rid: u64,
) -> Seq<StateChangeRep> {
    cs.map_values(
        |c: ChangeRep| StateChangeRep {
            timestamp: ts,
            source_id: sid,
            source_name: name,
            state_key: c.0,
            old_value: c.1,
            new_value: c.2,
            rule_id: rid,
        },
    )
}

/// Applying the first `n` pre-computed rule matches of one line, in
/// order: each match's extractions mutate the source's state, tagged
/// diffs and a rule-match record are emitted.
pub open spec fn apply_matches(
    states: Seq<(u64, Map<Seq<char>, TrackedRep>)>,
    line: LineRep,
    ms: Seq<(u64, Map<Seq<char>, ValueRep>)>,
    rules: Seq<LogRule>,
    name: Seq<char>,
    n: int,
) -> (Seq<(u64, Map<Seq<char>, TrackedRep>)>, Seq<StateChangeRep>, Seq<RuleMatchRep>)
    decreases n,
{
    if n <= 0 {
        (states, Seq::empty(), Seq::empty())
    } else {
        let (st1, cs1, rm1) = apply_matches(states, line, ms, rules, name, n - 1);
        match find_last_rule(rules, ms[n - 1].0) {
            Some(j) => {
                let res = apply_rules(
                    state_in(st1, line.source_id),
                    ms[n - 1].1,
                    rules[j].extraction_rules@,
                    line.timestamp,
                );
                (
                    seq_put(st1, line.source_id, res.0),
                    cs1 + tag_changes(res.1, line.timestamp, line.source_id, name, ms[n - 1].0),
                    rm1.push(
                        RuleMatchRep {
                            rule_id: ms[n - 1].0,
                            source_id: line.source_id,
                            log_line: line,
                            extracted_state: ms[n - 1].1,
                        },
                    ),
                )
            },
            None => (st1, cs1, rm1),
        }
    }
}

/// One merged line's full phase-two effect: JSON auto-extraction
/// first, then the rule matches in order, then one pattern-evaluation
/// pass, each pattern firing stamped with the line's timestamp.
pub open spec fn line_step(
    ids: Map<Seq<char>, u64>,
    names: Map<u64, Seq<char>>,
    rules: Seq<LogRule>,
    patterns: Seq<Pattern>,
    st: St,
    p: ProcRep,
) -> (St, LineOut) {
    let sid = p.line.source_id;
    let ts = p.line.timestamp;
    let name = name_or_empty(names, sid);
    let (st1, jcs) = match p.json_fields {
        Some(fs) => {
            let res = apply_fields(state_in(st.states, sid), fs, ts);
            (seq_put(st.states, sid, res.0), tag_changes(res.1, ts, sid, name, 0))
        },
        None => (st.states, Seq::empty()),
    };
    let (st2, rcs, rms) = apply_matches(st1, p.line, p.rule_matches, rules, name, p.rule_matches.len() as int);
    let smap = crate::assoc::map_of(st2);
    let prog2 = Seq::new(
        patterns.len(),
        |i: int| pattern_step(ids, smap, patterns[i], st.progress[i] as int).0 as usize,
    );
    let fired = fired_ids(ids, smap, patterns, st.progress, patterns.len() as int);
    let snap = snapshot_of(st2, names);
    let pms = Seq::new(
        fired.len(),
        |k: int| crate::pattern::PatternMatchRep {
            pattern_id: fired[k],
            timestamp: ts,
            state_snapshot: snap,
        },
    );
    (St { states: st2, progress: prog2 }, LineOut { changes: jcs + rcs, rms, pms })
}

/// The accumulated phase-two output.
pub struct RunOut {
    pub rms: Seq<RuleMatchRep>,
    pub pms: Seq<crate::pattern::PatternMatchRep>,
    pub scs: Seq<StateChangeRep>,
    pub lines: int,
}

/// Phase two over the merged lines: lines before `start` are skipped,
/// the run stops at the first line after `end`, and every other line
/// is applied in order (`line_step`).
pub open spec fn run_lines(
    ids: Map<Seq<char>, u64>,
    names: Map<u64, Seq<char>>,
    rules: Seq<LogRule>,
    patterns: Seq<Pattern>,
    st: St,
    plines: Seq<ProcRep>,
    range: TimeRange,
) -> RunOut
    decreases plines.len(),
{
    if plines.len() == 0 {
        RunOut { rms: Seq::empty(), pms: Seq::empty(), scs: Seq::empty(), lines: 0 }
    } else {
        let ts = plines[0].line.timestamp;
        if !after_start(range, ts) {
            run_lines(ids, names, rules, patterns, st, plines.skip(1), range)
        } else if !before_end(range, ts) {
            RunOut { rms: Seq::empty(), pms: Seq::empty(), scs: Seq::empty(), lines: 0 }
        } else {
            let (st2, out) = line_step(ids, names, rules, patterns, st, plines[0]);
            let rest = run_lines(ids, names, rules, patterns, st2, plines.skip(1), range);
            RunOut {
                rms: out.rms + rest.rms,
                pms: out.pms + rest.pms,
                scs: out.changes + rest.scs,
                lines: 1 + rest.lines,
            }
        }
    }
}

/// Why one source cannot be processed.
pub enum SourceFail {
    /// Its template or timestamp template is missing.
    MissingTemplate,
    /// One of the template's regexes does not compile.
    BadRegex,
    /// An entry of its text does not parse.
    Entry(EntryErr),
}

/// The first reason a source fails in phase one, or `None`.
pub open spec fn source_failure(
    source: Source,
    templates: Seq<SourceTemplate>,
    ts_templates: Seq<TimestampTemplate>,
    text: Seq<char>,
) -> Option<SourceFail> {
    match find_last_template(templates, source.template_id) {
        None => Some(SourceFail::MissingTemplate),
        Some(ti) => match find_last_ts_template(ts_templates, templates[ti].timestamp_template_id) {
            None => Some(SourceFail::MissingTemplate),
            Some(tsi) => if !crate::lines::source_regexes_valid(templates[ti], ts_templates[tsi]) {
                Some(SourceFail::BadRegex)
            } else {
                let entries = entries_of(source, templates[ti], ts_templates[tsi], text);
                match first_bad(entries) {
                    Some(i) => Some(SourceFail::Entry(entries[i]->Err_0)),
                    None => None,
                }
            },
        },
    }
}

/// The first failing source, scanning in order.
pub open spec fn first_source_failure(
    sources: Seq<Source>,
    templates: Seq<SourceTemplate>,
    ts_templates: Seq<TimestampTemplate>,
    texts: Seq<Seq<char>>,
    n: int,
) -> Option<SourceFail>
    decreases n,
{
    if n <= 0 {
        None
    } else {
        match first_source_failure(sources, templates, ts_templates, texts, n - 1) {
            Some(f) => Some(f),
            None => source_failure(sources[n - 1], templates, ts_templates, texts[n - 1]),
        }
    }
}

/// Whether the whole setup succeeds: every rule compiles and every
/// source processes.
pub open spec fn setup_ok(
    sources: Seq<Source>,
    templates: Seq<SourceTemplate>,
    ts_templates: Seq<TimestampTemplate>,
    texts: Seq<Seq<char>>,
    rules: Seq<LogRule>,
) -> bool {
    &&& (forall|i: int| 0 <= i < rules.len() ==> rule_compiles(#[trigger] rules[i]))
    &&& first_source_failure(sources, templates, ts_templates, texts, sources.len() as int) is None
}

/// The processed form of one source's lines, paired with their
/// timestamps for the merge; meaningful when the source has no
/// failure.
pub open spec fn source_procs(
    source: Source,
    templates: Seq<SourceTemplate>,
    ts_templates: Seq<TimestampTemplate>,
    text: Seq<char>,
    rulesets: Seq<crate::model::Ruleset>,
    rules: Seq<LogRule>,
) -> Seq<(Timestamp, ProcRep)> {
    let ti = find_last_template(templates, source.template_id)->Some_0;
    let tsi = find_last_ts_template(ts_templates, templates[ti].timestamp_template_id)->Some_0;
    let entries = entries_of(source, templates[ti], ts_templates[tsi], text);
    let rule_ids = ruleset_ids(rulesets, source.template_id);
    entries.map_values(
        |e: Result<LineRep, EntryErr>|
            (
                e->Ok_0.timestamp,
                proc_rep_of(
                    e->Ok_0,
                    rule_ids,
                    rules,
                    templates[ti].json_timestamp_field is Some,
                ),
            ),
    )
}

/// The merged processed stream of all sources.
pub open spec fn merged_procs(
    sources: Seq<Source>,
    templates: Seq<SourceTemplate>,
    ts_templates: Seq<TimestampTemplate>,
    texts: Seq<Seq<char>>,
    rulesets: Seq<crate::model::Ruleset>,
    rules: Seq<LogRule>,
) -> Seq<(Timestamp, ProcRep)> {
    merge_seq(
        Seq::new(
            sources.len(),
            |i: int| source_procs(sources[i], templates, ts_templates, texts[i], rulesets, rules),
        ),
    )
}

/// What a full run produces: phase two over the merged stream,
/// starting from empty state and zero progress.
pub open spec fn analyze_spec(
    sources: Seq<Source>,
    templates: Seq<SourceTemplate>,
    ts_templates: Seq<TimestampTemplate>,
    texts: Seq<Seq<char>>,
    rules: Seq<LogRule>,
    rulesets: Seq<crate::model::Ruleset>,
    patterns: Seq<Pattern>,
    range: TimeRange,
) -> RunOut {
    let merged = merged_procs(sources, templates, ts_templates, texts, rulesets, rules);
    run_lines(
        crate::state::ids_of(sources),
        crate::state::names_of(sources),
        rules,
        patterns,
        St {
            states: Seq::empty(),
            progress: Seq::new(patterns.len(), |i: int| 0usize),
        },
        merged.map_values(|e: (Timestamp, ProcRep)| e.1),
        range,
    )
}


/// Whether an error value has the kind an entry failure calls for.
pub open spec fn entry_err_class(e: AnalysisError, k: EntryErr) -> bool {
    match k {
        EntryErr::BadTimestamp => e is InvalidTimestampFormat,
        EntryErr::BadJson => e is ParseError,
        EntryErr::BadField => e is ParseError,
    }
}

/// The views of the source texts.
pub open spec fn texts_view(texts: Seq<String>) -> Seq<Seq<char>> {
    texts.map_values(|s: String| s@)
}

/// Looks the last source template with an id up.
pub fn find_template_for<'a>(templates: &'a Vec<SourceTemplate>, id: u64) -> (r: Option<
    &'a SourceTemplate,
>)
    ensures
        match r {
            Some(t) => find_last_template(templates@, id) matches Some(j) && *t == templates@[j],
            None => find_last_template(templates@, id) is None,
        },
{
    let n = templates.len();
    let mut i: usize = n;
    proof {
        assert(templates@.take(n as int) =~= templates@);
    }
    while i > 0
        invariant
            i <= n,
            n == templates@.len(),
            find_last_template(templates@, id) == find_last_template(templates@.take(i as int), id),
        decreases i,
    {
        proof {
            assert(templates@.take(i as int).last() == templates@[i - 1]);
            assert(templates@.take(i as int).drop_last() =~= templates@.take(i - 1));
        }
        if templates[i - 1].id == id {
            return Some(&templates[i - 1]);
        }
        i = i - 1;
    }
    proof {
        assert(templates@.take(0) =~= Seq::<SourceTemplate>::empty());
    }
    None
}

/// Looks the last timestamp template with an id up.
pub fn find_ts_template_for<'a>(templates: &'a Vec<TimestampTemplate>, id: u64) -> (r: Option<
    &'a TimestampTemplate,
>)
    ensures
        match r {
            Some(t) => find_last_ts_template(templates@, id) matches Some(j) && *t == templates@[j],
            None => find_last_ts_template(templates@, id) is None,
        },
{
    let n = templates.len();
    let mut i: usize = n;
    proof {
        assert(templates@.take(n as int) =~= templates@);
    }
    while i > 0
        invariant
            i <= n,
            n == templates@.len(),
            find_last_ts_template(templates@, id) == find_last_ts_template(
                templates@.take(i as int),
                id,
            ),
        decreases i,
    {
        proof {
            assert(templates@.take(i as int).last() == templates@[i - 1]);
            assert(templates@.take(i as int).drop_last() =~= templates@.take(i - 1));
        }
        if templates[i - 1].id == id {
            return Some(&templates[i - 1]);
        }
        i = i - 1;
    }
    proof {
        assert(templates@.take(0) =~= Seq::<TimestampTemplate>::empty());
    }
    None
}

/// Collects the rule ids of every ruleset bound to a template, in
/// ruleset order (`ruleset_ids`).
fn ruleset_ids_exec(rulesets: &Vec<crate::model::Ruleset>, template_id: u64) -> (r: Vec<u64>)
    ensures
        r@ == ruleset_ids(rulesets@, template_id),
{
    let n = rulesets.len();
    let mut out: Vec<u64> = Vec::new();
    let mut i: usize = 0;
    proof {
        assert(rulesets@.take(0) =~= Seq::<crate::model::Ruleset>::empty());
        assert(out@ =~= ruleset_ids(rulesets@.take(0), template_id));
    }
    while i < n
        invariant
            i <= n,
            n == rulesets@.len(),
            out@ == ruleset_ids(rulesets@.take(i as int), template_id),
        decreases n - i,
    {
        proof {
            assert(rulesets@.take(i + 1).last() == rulesets@[i as int]);
            assert(rulesets@.take(i + 1).drop_last() =~= rulesets@.take(i as int));
        }
        if rulesets[i].template_id == template_id {
            let ghost out0 = out@;
            let rs = &rulesets[i];
            let m = rs.rule_ids.len();
            let mut j: usize = 0;
            while j < m
                invariant
                    j <= m,
                    m == rs.rule_ids@.len(),
                    out@ == out0 + rs.rule_ids@.take(j as int),
                decreases m - j,
            {
                out.push(rs.rule_ids[j]);
                proof {
                    assert(out@ =~= out0 + rs.rule_ids@.take(j + 1));
                }
                j = j + 1;
            }
            proof {
                assert(rs.rule_ids@.take(m as int) =~= rs.rule_ids@);
                assert(out@ =~= ruleset_ids(rulesets@.take(i + 1), template_id));
            }
        } else {
            proof {
                assert(out@ =~= ruleset_ids(rulesets@.take(i + 1), template_id));
            }
        }
        i = i + 1;
    }
    proof {
        assert(rulesets@.take(n as int) =~= rulesets@);
    }
    out
}

/// A failure found at one source, with every earlier source clean, is
/// the run's first failure.
proof fn lemma_first_failure_at(
    sources: Seq<Source>,
    templates: Seq<SourceTemplate>,
    ts_templates: Seq<TimestampTemplate>,
    texts: Seq<Seq<char>>,
    k: int,
    n: int,
)
    requires
        0 <= k < n <= sources.len(),
        forall|j: int|
            0 <= j < k ==> source_failure(#[trigger] sources[j], templates, ts_templates, texts[j]) is None,
        source_failure(sources[k], templates, ts_templates, texts[k]) is Some,
    ensures
        first_source_failure(sources, templates, ts_templates, texts, n) == source_failure(
            sources[k],
            templates,
            ts_templates,
            texts[k],
        ),
    decreases n,
{
    if n - 1 > k {
        lemma_first_failure_at(sources, templates, ts_templates, texts, k, n - 1);
    } else {
        lemma_no_failure_upto(sources, templates, ts_templates, texts, k);
    }
}

/// With every source up to `n` clean, there is no first failure yet.
proof fn lemma_no_failure_upto(
    sources: Seq<Source>,
    templates: Seq<SourceTemplate>,
    ts_templates: Seq<TimestampTemplate>,
    texts: Seq<Seq<char>>,
    n: int,
)
    requires
        n <= sources.len(),
        forall|j: int|
            0 <= j < n ==> source_failure(#[trigger] sources[j], templates, ts_templates, texts[j]) is None,
    ensures
        first_source_failure(sources, templates, ts_templates, texts, n) is None,
    decreases n,
{
    if n > 0 {
        lemma_no_failure_upto(sources, templates, ts_templates, texts, n - 1);
    }
}

/// The timestamp-tagged views of one source's processed lines.
pub open spec fn procs_view(v: Seq<ProcessedLine>) -> Seq<(Timestamp, ProcRep)> {
    v.map_values(|p: ProcessedLine| (p.line@.timestamp, p@))
}

/// Merges the per-source processed lines chronologically
/// (`merge_seq`).
fn merge_processed(srcs: Vec<Vec<ProcessedLine>>) -> (r: Vec<ProcessedLine>)
    requires
        forall|i: int, j: int|
            0 <= i < srcs@.len() && 0 <= j < srcs@[i]@.len() ==> (#[trigger] srcs@[i]@[j]).wf_maps(),
    ensures
        procs_view(r@) == merge_seq(srcs@.map_values(|v: Vec<ProcessedLine>| procs_view(v@))),
        forall|k: int| 0 <= k < r@.len() ==> (#[trigger] r@[k]).wf_maps(),
{
    let ghost orig = srcs@.map_values(|v: Vec<ProcessedLine>| procs_view(v@));
    let mut srcs = srcs;
    let mut out: Vec<ProcessedLine> = Vec::new();
    proof {
        assert(procs_view(out@) =~= Seq::<(Timestamp, ProcRep)>::empty());
    }
    loop
        invariant
            srcs@.len() == orig.len(),
            forall|i: int, j: int|
                0 <= i < srcs@.len() && 0 <= j < srcs@[i]@.len() ==> (#[trigger] srcs@[i]@[j]).wf_maps(),
            forall|k: int| 0 <= k < out@.len() ==> (#[trigger] out@[k]).wf_maps(),
            merge_seq(orig) == procs_view(out@) + merge_seq(
                srcs@.map_values(|v: Vec<ProcessedLine>| procs_view(v@)),
            ),
        ensures
            merge_seq(srcs@.map_values(|v: Vec<ProcessedLine>| procs_view(v@))).len() == 0,
        decreases crate::merge::total_rem(
            srcs@.map_values(|v: Vec<ProcessedLine>| procs_view(v@)),
            srcs@.len() as int,
        ),
    {
        let ghost cur = srcs@.map_values(|v: Vec<ProcessedLine>| procs_view(v@));
        let n = srcs.len();
        let mut heads: Vec<Option<Timestamp>> = Vec::new();
        let mut i: usize = 0;
        while i < n
            invariant
                i <= n,
                n == srcs@.len(),
                cur == srcs@.map_values(|v: Vec<ProcessedLine>| procs_view(v@)),
                cur.len() == n,
                heads@.len() == i,
                forall|k: int|
                    0 <= k < i ==> #[trigger] heads@[k] == crate::merge::heads_of(cur)[k],
            decreases n - i,
        {
            let h: Option<Timestamp> = if srcs[i].len() > 0 {
                Some(srcs[i][0].line.timestamp)
            } else {
                None
            };
            heads.push(h);
            i = i + 1;
        }
        proof {
            assert(heads@ =~= crate::merge::heads_of(cur));
        }
        let p = match pick_exec(&heads) {
            Some(p) => p,
            None => {
                break ;
            },
        };
        proof {
            crate::merge::lemma_pick_in_range_pub(crate::merge::heads_of(cur));
            crate::merge::lemma_total_rem_pub(cur, p as int);
        }
        let mut sv = srcs.remove(p);
        let ghost sv0 = sv@;
        let item = sv.remove(0);
        srcs.insert(p, sv);
        let ghost out0 = procs_view(out@);
        out.push(item);
        proof {
            assert(sv@ =~= sv0.skip(1));
            assert(procs_view(sv@) =~= procs_view(sv0).skip(1));
            assert(procs_view(sv0) == cur[p as int]);
            assert(srcs@.map_values(|v: Vec<ProcessedLine>| procs_view(v@)) =~= cur.update(
                p as int,
                cur[p as int].skip(1),
            ));
            assert(procs_view(out@) =~= out0.push(cur[p as int][0]));
            assert(out0.push(cur[p as int][0]) =~= out0 + seq![cur[p as int][0]]);
            assert(merge_seq(cur) == seq![cur[p as int][0]] + merge_seq(
                cur.update(p as int, cur[p as int].skip(1)),
            ));
        }
    }
    out
}


/// Runs the full analysis pipeline: compiles the rules, parses and
/// rule-evaluates every source, merges the streams chronologically,
/// and applies state mutations and pattern evaluation line by line
/// (`analyze_spec`).  Succeeds exactly when every rule compiles and
/// every source parses; the error carries the kind of the first
/// failure.

/// The model of a streaming event.
pub enum EventRep {
    Rm(RuleMatchRep),
    Pm(crate::pattern::PatternMatchRep),
    Sc(StateChangeRep),
    Progress(u64),
    Complete(u64, u64, u64, u64),
    ErrorMsg(Seq<char>),
}

impl View for AnalysisEvent {
    type V = EventRep;

    open spec fn view(&self) -> EventRep {
        match self {
            AnalysisEvent::RuleMatch(m) => EventRep::Rm(m@),
            AnalysisEvent::PatternMatch(m) => EventRep::Pm(m@),
            AnalysisEvent::StateChange(c) => EventRep::Sc(c@),
            AnalysisEvent::Progress { lines_processed } => EventRep::Progress(*lines_processed),
            AnalysisEvent::Complete {
                total_lines,
                total_rule_matches,
                total_pattern_matches,
                total_state_changes,
            } => EventRep::Complete(
                *total_lines,
                *total_rule_matches,
                *total_pattern_matches,
                *total_state_changes,
            ),
            AnalysisEvent::Error { message } => EventRep::ErrorMsg(message@),
        }
    }
}

/// The events one line contributes: its state changes, then its rule
/// matches, then its pattern matches, then a progress marker at every
/// five hundredth processed line.
pub open spec fn line_events(out: LineOut, done_after: int) -> Seq<EventRep> {
    out.changes.map_values(|c: StateChangeRep| EventRep::Sc(c)) + out.rms.map_values(
        |m: RuleMatchRep| EventRep::Rm(m),
    ) + out.pms.map_values(|m: crate::pattern::PatternMatchRep| EventRep::Pm(m)) + (if done_after
        % 500 == 0 {
        seq![EventRep::Progress(done_after as u64)]
    } else {
        Seq::empty()
    })
}

/// The streamed events of phase two, without the terminal marker.
pub open spec fn run_events(
    ids: Map<Seq<char>, u64>,
    names: Map<u64, Seq<char>>,
    rules: Seq<LogRule>,
    patterns: Seq<Pattern>,
    st: St,
    plines: Seq<ProcRep>,
    range: TimeRange,
    done: int,
) -> Seq<EventRep>
    decreases plines.len(),
{
    if plines.len() == 0 {
        Seq::empty()
    } else {
        let ts = plines[0].line.timestamp;
        if !after_start(range, ts) {
            run_events(ids, names, rules, patterns, st, plines.skip(1), range, done)
        } else if !before_end(range, ts) {
            Seq::empty()
        } else {
            let (st2, out) = line_step(ids, names, rules, patterns, st, plines[0]);
            line_events(out, done + 1) + run_events(
                ids,
                names,
                rules,
                patterns,
                st2,
                plines.skip(1),
                range,
                done + 1,
            )
        }
    }
}

/// The full event stream of a successful run: the per-line events and
/// one terminal completion marker carrying the totals.
pub open spec fn events_spec(
    sources: Seq<Source>,
    templates: Seq<SourceTemplate>,
    ts_templates: Seq<TimestampTemplate>,
    texts: Seq<Seq<char>>,
    rules: Seq<LogRule>,
    rulesets: Seq<crate::model::Ruleset>,
    patterns: Seq<Pattern>,
    range: TimeRange,
) -> Seq<EventRep> {
    let merged = merged_procs(sources, templates, ts_templates, texts, rulesets, rules);
    let st0 = St { states: Seq::empty(), progress: Seq::new(patterns.len(), |i: int| 0usize) };
    let plines = merged.map_values(|e: (Timestamp, ProcRep)| e.1);
    let out = run_lines(crate::state::ids_of(sources), crate::state::names_of(sources), rules, patterns, st0, plines, range);
    run_events(
        crate::state::ids_of(sources),
        crate::state::names_of(sources),
        rules,
        patterns,
        st0,
        plines,
        range,
        0,
    ) + seq![
        EventRep::Complete(
            out.lines as u64,
            out.rms.len() as u64,
            out.pms.len() as u64,
            out.scs.len() as u64,
        ),
    ]
}

#[verifier::rlimit(100)]
fn run_analysis(
    sources: &Vec<Source>,
    texts: &Vec<String>,
    templates: &Vec<SourceTemplate>,
    timestamp_templates: &Vec<TimestampTemplate>,
    rules: &Vec<LogRule>,
    rulesets: &Vec<crate::model::Ruleset>,
    patterns: &Vec<Pattern>,
    time_range: &TimeRange,
) -> (r: Result<(AnalysisResult, Vec<AnalysisEvent>), AnalysisError>)
    requires
        texts@.len() == sources@.len(),
    ensures
        r is Ok <==> setup_ok(
            sources@,
            templates@,
            timestamp_templates@,
            texts_view(texts@),
            rules@,
        ),
        r matches Ok(pair) ==> {
            let res = pair.0;
            let out = analyze_spec(
                sources@,
                templates@,
                timestamp_templates@,
                texts_view(texts@),
                rules@,
                rulesets@,
                patterns@,
                *time_range,
            );
            &&& res.rule_matches@.map_values(|m: RuleMatch| m@) == out.rms
            &&& res.pattern_matches@.map_values(|m: PatternMatch| m@) == out.pms
            &&& res.state_changes@.map_values(|c: StateChange| c@) == out.scs
            &&& pair.1@.map_values(|e: AnalysisEvent| e@) == events_spec(
                sources@,
                templates@,
                timestamp_templates@,
                texts_view(texts@),
                rules@,
                rulesets@,
                patterns@,
                *time_range,
            )
        },
        r matches Err(e) ==> {
            if !(forall|i: int| 0 <= i < rules@.len() ==> rule_compiles(#[trigger] rules@[i])) {
                e is InvalidRegex
            } else {
                match first_source_failure(
                    sources@,
                    templates@,
                    timestamp_templates@,
                    texts_view(texts@),
                    sources@.len() as int,
                ) {
                    Some(SourceFail::MissingTemplate) => e is ParseError,
                    Some(SourceFail::BadRegex) => e is InvalidRegex,
                    Some(SourceFail::Entry(k)) => entry_err_class(e, k),
                    None => false,
                }
            }
        },
{
    let compiled = match compile_rules(rules) {
        Ok(c) => c,
        Err(e) => {
            return Err(e);
        },
    };
    let ghost tviews = texts_view(texts@);
    let ns = sources.len();
    let mut per_source: Vec<Vec<ProcessedLine>> = Vec::new();
    let mut si: usize = 0;
    while si < ns
        invariant
            si <= ns,
            ns == sources@.len(),
            texts@.len() == sources@.len(),
            tviews == texts_view(texts@),
            per_source@.len() == si,
            compiled@.len() == rules@.len(),
            forall|k: int|
                0 <= k < rules@.len() ==> compiled_from(#[trigger] compiled@[k], rules@[k]),
            forall|k: int| 0 <= k < rules@.len() ==> rule_compiles(#[trigger] rules@[k]),
            forall|j: int|
                0 <= j < si ==> source_failure(
                    #[trigger] sources@[j],
                    templates@,
                    timestamp_templates@,
                    tviews[j],
                ) is None,
            forall|j: int, k: int|
                0 <= j < si && 0 <= k < per_source@[j]@.len() ==> (#[trigger] per_source@[j]@[k]).wf_maps(),
            forall|j: int|
                0 <= j < si ==> procs_view((#[trigger] per_source@[j])@) == source_procs(
                    sources@[j],
                    templates@,
                    timestamp_templates@,
                    tviews[j],
                    rulesets@,
                    rules@,
                ),
        decreases ns - si,
    {
        let source = &sources[si];
        let template = match find_template_for(templates, source.template_id) {
            Some(t) => t,
            None => {
                proof {
                    lemma_first_failure_at(
                        sources@,
                        templates@,
                        timestamp_templates@,
                        tviews,
                        si as int,
                        ns as int,
                    );
                }
                let mut m = String::new();
                m.append("no template found for template_id ");
                let idtext = crate::text::u64_to_string(source.template_id);
                m.append(idtext.as_str());
                return Err(AnalysisError::ParseError(m));
            },
        };
        let ts_template = match find_ts_template_for(
            timestamp_templates,
            template.timestamp_template_id,
        ) {
            Some(t) => t,
            None => {
                proof {
                    lemma_first_failure_at(
                        sources@,
                        templates@,
                        timestamp_templates@,
                        tviews,
                        si as int,
                        ns as int,
                    );
                }
                let mut m = String::new();
                m.append("no timestamp template found for timestamp_template_id ");
                let idtext = crate::text::u64_to_string(template.timestamp_template_id);
                m.append(idtext.as_str());
                return Err(AnalysisError::ParseError(m));
            },
        };
        let rule_ids = ruleset_ids_exec(rulesets, source.template_id);
        match process_source(
            source,
            template,
            ts_template,
            texts[si].as_str(),
            &rule_ids,
            rules,
            &compiled,
        ) {
            Ok(procs) => {
                proof {
                    let entries = entries_of(*source, *template, *ts_template, tviews[si as int]);
                    assert(procs_view(procs@) =~= source_procs(
                        sources@[si as int],
                        templates@,
                        timestamp_templates@,
                        tviews[si as int],
                        rulesets@,
                        rules@,
                    ));
                }
                per_source.push(procs);
            },
            Err(e) => {
                proof {
                    lemma_first_failure_at(
                        sources@,
                        templates@,
                        timestamp_templates@,
                        tviews,
                        si as int,
                        ns as int,
                    );
                }
                return Err(e);
            },
        }
        si = si + 1;
    }
    proof {
        lemma_no_failure_upto(sources@, templates@, timestamp_templates@, tviews, ns as int);
        assert(per_source@.map_values(|v: Vec<ProcessedLine>| procs_view(v@)) =~= Seq::new(
            sources@.len(),
            |i: int| source_procs(
                sources@[i],
                templates@,
                timestamp_templates@,
                tviews[i],
                rulesets@,
                rules@,
            ),
        ));
    }
    let merged = merge_processed(per_source);
    let ghost plines = procs_view(merged@).map_values(|e: (Timestamp, ProcRep)| e.1);
    let ghost ids0 = crate::state::ids_of(sources@);
    let ghost names0 = crate::state::names_of(sources@);
    let ghost total = analyze_spec(
        sources@,
        templates@,
        timestamp_templates@,
        tviews,
        rules@,
        rulesets@,
        patterns@,
        *time_range,
    );
    proof {
        assert(plines =~= merged_procs(
            sources@,
            templates@,
            timestamp_templates@,
            tviews,
            rulesets@,
            rules@,
        ).map_values(|e: (Timestamp, ProcRep)| e.1));
    }
    let mut state_manager = StateManager::new(sources);
    let mut pattern_eval = PatternEvaluator::new(patterns);
    let mut all_rule_matches: Vec<RuleMatch> = Vec::new();
    let mut all_pattern_matches: Vec<PatternMatch> = Vec::new();
    let mut all_state_changes: Vec<StateChange> = Vec::new();
    let mut events: Vec<AnalysisEvent> = Vec::new();
    let mut processed: u64 = 0;
    let ghost total_ev = run_events(
        ids0,
        names0,
        rules@,
        patterns@,
        St {
            states: Seq::<(u64, Map<Seq<char>, TrackedRep>)>::empty(),
            progress: Seq::new(patterns@.len(), |i: int| 0usize),
        },
        plines,
        *time_range,
        0,
    );
    let nm = merged.len();
    let mut mi: usize = 0;
    let ghost mut lines_done: int = 0;
    proof {
        assert(events@.map_values(|e: AnalysisEvent| e@) =~= Seq::<EventRep>::empty());
        assert(pattern_eval.progress@ =~= Seq::new(patterns@.len(), |i: int| 0usize));
        assert(state_manager.states_seq() =~= Seq::<(u64, Map<Seq<char>, TrackedRep>)>::empty());
        assert(plines.skip(0) =~= plines);
        assert(merged@.map_values(|p: ProcessedLine| p@) =~= plines);
        assert(all_rule_matches@.map_values(|m: RuleMatch| m@) =~= Seq::<RuleMatchRep>::empty());
        assert(all_pattern_matches@.map_values(|m: PatternMatch| m@)
            =~= Seq::<crate::pattern::PatternMatchRep>::empty());
        assert(all_state_changes@.map_values(|c: StateChange| c@)
            =~= Seq::<StateChangeRep>::empty());
    }
    while mi < nm
        invariant_except_break
            mi <= nm,
            nm == merged@.len(),
            plines.len() == nm,
            compiled@.len() == rules@.len(),
            forall|k: int|
                0 <= k < rules@.len() ==> compiled_from(#[trigger] compiled@[k], rules@[k]),
            ids0 == crate::state::ids_of(sources@),
            names0 == crate::state::names_of(sources@),
            forall|k: int| 0 <= k < nm ==> (#[trigger] merged@[k])@ == plines[k],
            forall|k: int| 0 <= k < nm ==> (#[trigger] merged@[k]).wf_maps(),
            state_manager.wf(),
            state_manager.ids_view() == ids0,
            state_manager.names_view() == names0,
            pattern_eval.wf_for(patterns@),
            processed as int == lines_done,
            0 <= lines_done <= mi,
            total == combine_out(
                all_rule_matches@.map_values(|m: RuleMatch| m@),
                all_pattern_matches@.map_values(|m: PatternMatch| m@),
                all_state_changes@.map_values(|c: StateChange| c@),
                lines_done,
                run_lines(
                    ids0,
                    names0,
                    rules@,
                    patterns@,
                    St { states: state_manager.states_seq(), progress: pattern_eval.progress@ },
                    plines.skip(mi as int),
                    *time_range,
                ),
            ),
            total_ev == events@.map_values(|e: AnalysisEvent| e@) + run_events(
                ids0,
                names0,
                rules@,
                patterns@,
                St { states: state_manager.states_seq(), progress: pattern_eval.progress@ },
                plines.skip(mi as int),
                *time_range,
                lines_done,
            ),
        invariant
            nm == merged@.len(),
        ensures
            total.rms == all_rule_matches@.map_values(|m: RuleMatch| m@),
            total.pms == all_pattern_matches@.map_values(|m: PatternMatch| m@),
            total.scs == all_state_changes@.map_values(|c: StateChange| c@),
            total.lines == lines_done,
            processed as int == lines_done,
            total_ev == events@.map_values(|e: AnalysisEvent| e@),
        decreases nm - mi,
    {
        let ghost rest0 = plines.skip(mi as int);
        proof {
            assert(rest0[0] == plines[mi as int]);
            assert(rest0.skip(1) =~= plines.skip(mi + 1));
        }
        let p = &merged[mi];
        let ts = p.line.timestamp;
        let skip_line = match &time_range.start {
            Some(s) => p.line.timestamp.lt(s),
            None => false,
        };
        if skip_line {
            proof {
                assert(!after_start(*time_range, plines[mi as int].line.timestamp));
            }
            mi = mi + 1;
            continue ;
        }
        let stop = match &time_range.end {
            Some(e) => e.lt(&p.line.timestamp),
            None => false,
        };
        if stop {
            proof {
                assert(!before_end(*time_range, plines[mi as int].line.timestamp));
            }
            break ;
        }
        let ghost st_in = St {
            states: state_manager.states_seq(),
            progress: pattern_eval.progress@,
        };
        let ghost stepped = line_step(ids0, names0, rules@, patterns@, st_in, plines[mi as int]);
        let sid = p.line.source_id;
        let source_name: String = match state_manager.name_of(sid) {
            Some(n) => n.clone(),
            None => String::new(),
        };
        let ghost jcs0 = all_state_changes@.map_values(|c: StateChange| c@);
        let sc_base = all_state_changes.len();
        let rm_base = all_rule_matches.len();
        let pm_base = all_pattern_matches.len();
        let ghost ev0 = events@.map_values(|e: AnalysisEvent| e@);
        if let Some(fields) = &p.json_fields {
            let changes = state_manager.apply_json(sid, fields, ts);
            let cn = changes.len();
            let mut ci: usize = 0;
            let mut changes = changes;
            let ghost chv = crate::state::changes_view(changes@);
            while ci < cn
                invariant
                    ci <= cn,
                    cn == chv.len(),
                    changes@.len() == cn - ci,
                    crate::state::changes_view(changes@) =~= chv.skip(ci as int),
                    all_state_changes@.map_values(|c: StateChange| c@) =~= jcs0 + tag_changes(
                        chv.take(ci as int),
                        ts,
                        sid,
                        name_or_empty(names0, sid),
                        0,
                    ),
                    source_name@ == name_or_empty(names0, sid),
                decreases cn - ci,
            {
                let ghost cv0 = changes@;
                let (key, old_v, new_v) = changes.remove(0);
                proof {
                    assert(changes@ =~= cv0.skip(1));
                    assert(crate::state::changes_view(changes@) =~= crate::state::changes_view(
                        cv0,
                    ).skip(1));
                    assert(chv.skip(ci as int).skip(1) =~= chv.skip(ci + 1));
                    assert(chv[ci as int] == crate::state::changes_view(cv0)[0]);
                }
                let ghost sc_pre = all_state_changes@.map_values(|c: StateChange| c@);
                all_state_changes.push(
                    StateChange {
                        timestamp: ts,
                        source_id: sid,
                        source_name: source_name.clone(),
                        state_key: key,
                        old_value: old_v,
                        new_value: new_v,
                        rule_id: 0,
                    },
                );
                proof {
                    assert(all_state_changes@.map_values(|c: StateChange| c@) =~= sc_pre.push(
                        StateChangeRep {
                            timestamp: ts,
                            source_id: sid,
                            source_name: name_or_empty(names0, sid),
                            state_key: chv[ci as int].0,
                            old_value: chv[ci as int].1,
                            new_value: chv[ci as int].2,
                            rule_id: 0,
                        },
                    ));
                    assert(crate::state::changes_view(changes@) =~= chv.skip(ci + 1));
                    assert(chv.take(ci + 1) =~= chv.take(ci as int).push(chv[ci as int]));
                    assert(tag_changes(chv.take(ci + 1), ts, sid, name_or_empty(names0, sid), 0)
                        =~= tag_changes(
                        chv.take(ci as int),
                        ts,
                        sid,
                        name_or_empty(names0, sid),
                        0,
                    ).push(
                        StateChangeRep {
                            timestamp: ts,
                            source_id: sid,
                            source_name: name_or_empty(names0, sid),
                            state_key: chv[ci as int].0,
                            old_value: chv[ci as int].1,
                            new_value: chv[ci as int].2,
                            rule_id: 0,
                        },
                    ));
                    assert(jcs0 + tag_changes(
                        chv.take(ci as int),
                        ts,
                        sid,
                        name_or_empty(names0, sid),
                        0,
                    ).push(
                        StateChangeRep {
                            timestamp: ts,
                            source_id: sid,
                            source_name: name_or_empty(names0, sid),
                            state_key: chv[ci as int].0,
                            old_value: chv[ci as int].1,
                            new_value: chv[ci as int].2,
                            rule_id: 0,
                        },
                    ) =~= (jcs0 + tag_changes(
                        chv.take(ci as int),
                        ts,
                        sid,
                        name_or_empty(names0, sid),
                        0,
                    )).push(
                        StateChangeRep {
                            timestamp: ts,
                            source_id: sid,
                            source_name: name_or_empty(names0, sid),
                            state_key: chv[ci as int].0,
                            old_value: chv[ci as int].1,
                            new_value: chv[ci as int].2,
                            rule_id: 0,
                        },
                    ));
                    assert(all_state_changes@.map_values(|c: StateChange| c@) =~= jcs0
                        + tag_changes(chv.take(ci + 1), ts, sid, name_or_empty(names0, sid), 0));
                }
                ci = ci + 1;
            }
            proof {
                assert(chv.take(cn as int) =~= chv);
            }
        }
        let ghost st1 = state_manager.states_seq();
        let ghost rcs0 = all_state_changes@.map_values(|c: StateChange| c@);
        let ghost rms0 = all_rule_matches@.map_values(|m: RuleMatch| m@);
        proof {
            assert(rms0.len() == rm_base);
            assert(jcs0.len() == sc_base);
        }
        let ghost ms = plines[mi as int].rule_matches;
        let rn = p.rule_matches.len();
        let mut ri: usize = 0;
        while ri < rn
            invariant
                ri <= rn,
                rn == ms.len(),
                state_manager.wf(),
                state_manager.ids_view() == ids0,
                state_manager.names_view() == names0,
                compiled@.len() == rules@.len(),
                forall|k: int|
                    0 <= k < rules@.len() ==> compiled_from(#[trigger] compiled@[k], rules@[k]),
                mi < nm,
                *p == merged@[mi as int],
                rn == p.rule_matches@.len(),
                merged@[mi as int]@.rule_matches == ms,
                merged@[mi as int].wf_maps(),
                merged@[mi as int]@.line == plines[mi as int].line,
                ts == plines[mi as int].line.timestamp,
                sid == plines[mi as int].line.source_id,
                source_name@ == name_or_empty(names0, sid),
                (
                    state_manager.states_seq(),
                    all_state_changes@.map_values(|c: StateChange| c@),
                    all_rule_matches@.map_values(|m: RuleMatch| m@),
                ) == {
                    let stepk = apply_matches(
                        st1,
                        plines[mi as int].line,
                        ms,
                        rules@,
                        name_or_empty(names0, sid),
                        ri as int,
                    );
                    (stepk.0, rcs0 + stepk.1, rms0 + stepk.2)
                },
            decreases rn - ri,
        {
            let ghost stepk = apply_matches(
                st1,
                plines[mi as int].line,
                ms,
                rules@,
                name_or_empty(names0, sid),
                ri as int,
            );
            let rid = p.rule_matches[ri].0;
            proof {
                assert(ms[ri as int] == (rid, p.rule_matches@[ri as int].1@));
            }
            match find_rule_exec(rules, &compiled, rid) {
                Some((rule, _c)) => {
                    let extr = &p.rule_matches[ri].1;
                    let changes = state_manager.apply_mutations(
                        sid,
                        extr,
                        &rule.extraction_rules,
                        ts,
                    );
                    let ghost tagged0 = all_state_changes@.map_values(|c: StateChange| c@);
                    let cn = changes.len();
                    let mut changes = changes;
                    let ghost chv = crate::state::changes_view(changes@);
                    let mut ci: usize = 0;
                    while ci < cn
                        invariant
                            ci <= cn,
                            cn == chv.len(),
                            changes@.len() == cn - ci,
                            crate::state::changes_view(changes@) =~= chv.skip(ci as int),
                            all_state_changes@.map_values(|c: StateChange| c@) =~= tagged0
                                + tag_changes(
                                chv.take(ci as int),
                                ts,
                                sid,
                                name_or_empty(names0, sid),
                                rid,
                            ),
                            source_name@ == name_or_empty(names0, sid),
                        decreases cn - ci,
                    {
                        let ghost cv0 = changes@;
                        let (key, old_v, new_v) = changes.remove(0);
                        proof {
                            assert(changes@ =~= cv0.skip(1));
                            assert(crate::state::changes_view(changes@)
                                =~= crate::state::changes_view(cv0).skip(1));
                            assert(chv.skip(ci as int).skip(1) =~= chv.skip(ci + 1));
                            assert(chv[ci as int] == crate::state::changes_view(cv0)[0]);
                        }
                        let ghost sc_pre = all_state_changes@.map_values(|c: StateChange| c@);
                        all_state_changes.push(
                            StateChange {
                                timestamp: ts,
                                source_id: sid,
                                source_name: source_name.clone(),
                                state_key: key,
                                old_value: old_v,
                                new_value: new_v,
                                rule_id: rid,
                            },
                        );
                        proof {
                            assert(all_state_changes@.map_values(|c: StateChange| c@)
                                =~= sc_pre.push(
                                StateChangeRep {
                                    timestamp: ts,
                                    source_id: sid,
                                    source_name: name_or_empty(names0, sid),
                                    state_key: chv[ci as int].0,
                                    old_value: chv[ci as int].1,
                                    new_value: chv[ci as int].2,
                                    rule_id: rid,
                                },
                            ));
                            assert(crate::state::changes_view(changes@) =~= chv.skip(ci + 1));
                            assert(chv.take(ci + 1) =~= chv.take(ci as int).push(chv[ci as int]));
                            assert(tag_changes(
                                chv.take(ci + 1),
                                ts,
                                sid,
                                name_or_empty(names0, sid),
                                rid,
                            ) =~= tag_changes(
                                chv.take(ci as int),
                                ts,
                                sid,
                                name_or_empty(names0, sid),
                                rid,
                            ).push(
                                StateChangeRep {
                                    timestamp: ts,
                                    source_id: sid,
                                    source_name: name_or_empty(names0, sid),
                                    state_key: chv[ci as int].0,
                                    old_value: chv[ci as int].1,
                                    new_value: chv[ci as int].2,
                                    rule_id: rid,
                                },
                            ));
                            assert(tagged0 + tag_changes(
                                chv.take(ci as int),
                                ts,
                                sid,
                                name_or_empty(names0, sid),
                                rid,
                            ).push(
                                StateChangeRep {
                                    timestamp: ts,
                                    source_id: sid,
                                    source_name: name_or_empty(names0, sid),
                                    state_key: chv[ci as int].0,
                                    old_value: chv[ci as int].1,
                                    new_value: chv[ci as int].2,
                                    rule_id: rid,
                                },
                            ) =~= (tagged0 + tag_changes(
                                chv.take(ci as int),
                                ts,
                                sid,
                                name_or_empty(names0, sid),
                                rid,
                            )).push(
                                StateChangeRep {
                                    timestamp: ts,
                                    source_id: sid,
                                    source_name: name_or_empty(names0, sid),
                                    state_key: chv[ci as int].0,
                                    old_value: chv[ci as int].1,
                                    new_value: chv[ci as int].2,
                                    rule_id: rid,
                                },
                            ));
                            assert(all_state_changes@.map_values(|c: StateChange| c@) =~= tagged0
                                + tag_changes(
                                chv.take(ci + 1),
                                ts,
                                sid,
                                name_or_empty(names0, sid),
                                rid,
                            ));
                        }
                        ci = ci + 1;
                    }
                    proof {
                        assert(chv.take(cn as int) =~= chv);
                    }
                    let lm = RuleMatch {
                        rule_id: rid,
                        source_id: sid,
                        log_line: p.line.clone_line(),
                        extracted_state: extr.clone_map(),
                    };
                    let ghost rm_pre = all_rule_matches@.map_values(|m: RuleMatch| m@);
                    all_rule_matches.push(lm);
                    proof {
                        assert(all_rule_matches@.map_values(|m: RuleMatch| m@) =~= rm_pre.push(
                            RuleMatchRep {
                                rule_id: rid,
                                source_id: sid,
                                log_line: plines[mi as int].line,
                                extracted_state: ms[ri as int].1,
                            },
                        ));
                        let stepn = apply_matches(
                            st1,
                            plines[mi as int].line,
                            ms,
                            rules@,
                            name_or_empty(names0, sid),
                            ri + 1,
                        );
                        assert(stepn.2 =~= stepk.2.push(
                            RuleMatchRep {
                                rule_id: rid,
                                source_id: sid,
                                log_line: plines[mi as int].line,
                                extracted_state: ms[ri as int].1,
                            },
                        ));
                        assert(rms0 + stepk.2.push(
                            RuleMatchRep {
                                rule_id: rid,
                                source_id: sid,
                                log_line: plines[mi as int].line,
                                extracted_state: ms[ri as int].1,
                            },
                        ) =~= (rms0 + stepk.2).push(
                            RuleMatchRep {
                                rule_id: rid,
                                source_id: sid,
                                log_line: plines[mi as int].line,
                                extracted_state: ms[ri as int].1,
                            },
                        ));
                        assert(all_rule_matches@.map_values(|m: RuleMatch| m@) =~= rms0 + stepn.2);
                        assert(stepn.1 =~= stepk.1 + tag_changes(
                            chv,
                            ts,
                            sid,
                            name_or_empty(names0, sid),
                            rid,
                        ));
                        assert(rcs0 + stepn.1 =~= (rcs0 + stepk.1) + tag_changes(
                            chv,
                            ts,
                            sid,
                            name_or_empty(names0, sid),
                            rid,
                        ));
                        assert(all_state_changes@.map_values(|c: StateChange| c@) =~= rcs0
                            + stepn.1);
                    }
                },
                None => {
                    proof {
                        assert(apply_matches(
                            st1,
                            plines[mi as int].line,
                            ms,
                            rules@,
                            name_or_empty(names0, sid),
                            ri + 1,
                        ) == stepk);
                    }
                },
            }
            ri = ri + 1;
        }
        let ghost st2 = state_manager.states_seq();
        let pmatches = pattern_eval.evaluate_patterns(patterns, &state_manager);
        let ghost pms0 = all_pattern_matches@.map_values(|m: PatternMatch| m@);
        proof {
            assert(pms0.len() == pm_base);
        }
        let ghost fired = fired_ids(
            ids0,
            state_manager.states_view(),
            patterns@,
            st_in.progress,
            patterns@.len() as int,
        );
        let pn = pmatches.len();
        let mut pmatches = pmatches;
        let mut pi: usize = 0;
        while pi < pn
            invariant
                pi <= pn,
                pn == fired.len(),
                pmatches@.len() == pn - pi,
                forall|k: int|
                    0 <= k < pmatches@.len() ==> (#[trigger] pmatches@[k]).pattern_id == fired[k
                        + pi] && pmatches@[k].state_snapshot@ == snapshot_of(st2, names0)
                        && pmatches@[k].state_snapshot.wf(),
                all_pattern_matches@.map_values(|m: PatternMatch| m@) =~= pms0 + Seq::new(
                    pi as nat,
                    |k: int| crate::pattern::PatternMatchRep {
                        pattern_id: fired[k],
                        timestamp: ts,
                        state_snapshot: snapshot_of(st2, names0),
                    },
                ),
            decreases pn - pi,
        {
            let ghost pv0 = pmatches@;
            let m = pmatches.remove(0);
            proof {
                assert(pmatches@ =~= pv0.skip(1));
                assert(m == pv0[0]);
            }
            let ghost ap0 = all_pattern_matches@.map_values(|m2: PatternMatch| m2@);
            all_pattern_matches.push(
                PatternMatch {
                    pattern_id: m.pattern_id,
                    timestamp: ts,
                    state_snapshot: m.state_snapshot,
                },
            );
            proof {
                assert(all_pattern_matches@.map_values(|m2: PatternMatch| m2@) =~= ap0.push(
                    crate::pattern::PatternMatchRep {
                        pattern_id: fired[pi as int],
                        timestamp: ts,
                        state_snapshot: snapshot_of(st2, names0),
                    },
                ));
                assert(Seq::new(
                    (pi + 1) as nat,
                    |k: int| crate::pattern::PatternMatchRep {
                        pattern_id: fired[k],
                        timestamp: ts,
                        state_snapshot: snapshot_of(st2, names0),
                    },
                ) =~= Seq::new(
                    pi as nat,
                    |k: int| crate::pattern::PatternMatchRep {
                        pattern_id: fired[k],
                        timestamp: ts,
                        state_snapshot: snapshot_of(st2, names0),
                    },
                ).push(
                    crate::pattern::PatternMatchRep {
                        pattern_id: fired[pi as int],
                        timestamp: ts,
                        state_snapshot: snapshot_of(st2, names0),
                    },
                ));
                assert(pms0 + Seq::new(
                    pi as nat,
                    |k: int| crate::pattern::PatternMatchRep {
                        pattern_id: fired[k],
                        timestamp: ts,
                        state_snapshot: snapshot_of(st2, names0),
                    },
                ).push(
                    crate::pattern::PatternMatchRep {
                        pattern_id: fired[pi as int],
                        timestamp: ts,
                        state_snapshot: snapshot_of(st2, names0),
                    },
                ) =~= (pms0 + Seq::new(
                    pi as nat,
                    |k: int| crate::pattern::PatternMatchRep {
                        pattern_id: fired[k],
                        timestamp: ts,
                        state_snapshot: snapshot_of(st2, names0),
                    },
                )).push(
                    crate::pattern::PatternMatchRep {
                        pattern_id: fired[pi as int],
                        timestamp: ts,
                        state_snapshot: snapshot_of(st2, names0),
                    },
                ));
                assert(all_pattern_matches@.map_values(|m2: PatternMatch| m2@) =~= pms0 + Seq::new(
                    (pi + 1) as nat,
                    |k: int| crate::pattern::PatternMatchRep {
                        pattern_id: fired[k],
                        timestamp: ts,
                        state_snapshot: snapshot_of(st2, names0),
                    },
                ));
            }
            pi = pi + 1;
        }
        let ghost outp = line_step(ids0, names0, rules@, patterns@, st_in, plines[mi as int]);
        proof {
            assert(all_state_changes@.map_values(|c: StateChange| c@) =~= jcs0 + outp.1.changes);
            assert(all_rule_matches@.map_values(|m: RuleMatch| m@) =~= rms0 + outp.1.rms);
            assert(all_pattern_matches@.map_values(|m: PatternMatch| m@) =~= pms0 + outp.1.pms);
        }
        let sc_len = all_state_changes.len();
        proof {
            assert(all_state_changes@.map_values(|c: StateChange| c@).len()
                == all_state_changes@.len());
            assert(outp.1.changes.len() == sc_len - sc_base);
        }
        let mut ei = sc_base;
        while ei < sc_len
            invariant
                sc_base <= ei <= sc_len,
                sc_len == all_state_changes@.len(),
                sc_base == jcs0.len(),
                outp.1.changes.len() == sc_len - sc_base,
                all_state_changes@.map_values(|c: StateChange| c@) == jcs0 + outp.1.changes,
                events@.map_values(|e: AnalysisEvent| e@) == ev0 + outp.1.changes.take(
                    ei - sc_base,
                ).map_values(|c: StateChangeRep| EventRep::Sc(c)),
            decreases sc_len - ei,
        {
            let ghost evpre = events@.map_values(|e: AnalysisEvent| e@);
            proof {
                assert(all_state_changes@.map_values(|c: StateChange| c@)[ei as int] == (jcs0
                    + outp.1.changes)[ei as int]);
                assert(all_state_changes@[ei as int]@ == outp.1.changes[ei - sc_base]);
            }
            events.push(AnalysisEvent::StateChange(all_state_changes[ei].clone_sc()));
            proof {
                assert(events@.map_values(|e: AnalysisEvent| e@) =~= evpre.push(
                    EventRep::Sc(outp.1.changes[ei - sc_base]),
                ));
                assert(outp.1.changes.take(ei + 1 - sc_base) =~= outp.1.changes.take(
                    ei - sc_base,
                ).push(outp.1.changes[ei - sc_base]));
                assert(events@.map_values(|e: AnalysisEvent| e@) =~= ev0 + outp.1.changes.take(
                    ei + 1 - sc_base,
                ).map_values(|c: StateChangeRep| EventRep::Sc(c)));
            }
            ei = ei + 1;
        }
        let ghost ev1 = ev0 + outp.1.changes.map_values(|c: StateChangeRep| EventRep::Sc(c));
        proof {
            assert(outp.1.changes.take(sc_len - sc_base) =~= outp.1.changes);
            assert(events@.map_values(|e: AnalysisEvent| e@) =~= ev1);
        }
        let rm_len = all_rule_matches.len();
        proof {
            assert(all_rule_matches@.map_values(|m: RuleMatch| m@).len()
                == all_rule_matches@.len());
            assert(outp.1.rms.len() == rm_len - rm_base);
        }
        let mut ei = rm_base;
        while ei < rm_len
            invariant
                rm_base <= ei <= rm_len,
                rm_len == all_rule_matches@.len(),
                rm_base == rms0.len(),
                outp.1.rms.len() == rm_len - rm_base,
                all_rule_matches@.map_values(|m: RuleMatch| m@) == rms0 + outp.1.rms,
                events@.map_values(|e: AnalysisEvent| e@) == ev1 + outp.1.rms.take(
                    ei - rm_base,
                ).map_values(|m: RuleMatchRep| EventRep::Rm(m)),
            decreases rm_len - ei,
        {
            let ghost evpre = events@.map_values(|e: AnalysisEvent| e@);
            proof {
                assert(all_rule_matches@.map_values(|m: RuleMatch| m@)[ei as int] == (rms0
                    + outp.1.rms)[ei as int]);
                assert(all_rule_matches@[ei as int]@ == outp.1.rms[ei - rm_base]);
            }
            events.push(AnalysisEvent::RuleMatch(all_rule_matches[ei].clone_rm()));
            proof {
                assert(events@.map_values(|e: AnalysisEvent| e@) =~= evpre.push(
                    EventRep::Rm(outp.1.rms[ei - rm_base]),
                ));
                assert(outp.1.rms.take(ei + 1 - rm_base) =~= outp.1.rms.take(ei - rm_base).push(
                    outp.1.rms[ei - rm_base],
                ));
                assert(events@.map_values(|e: AnalysisEvent| e@) =~= ev1 + outp.1.rms.take(
                    ei + 1 - rm_base,
                ).map_values(|m: RuleMatchRep| EventRep::Rm(m)));
            }
            ei = ei + 1;
        }
        let ghost ev2 = ev1 + outp.1.rms.map_values(|m: RuleMatchRep| EventRep::Rm(m));
        proof {
            assert(outp.1.rms.take(rm_len - rm_base) =~= outp.1.rms);
            assert(events@.map_values(|e: AnalysisEvent| e@) =~= ev2);
        }
        let pm_len = all_pattern_matches.len();
        proof {
            assert(all_pattern_matches@.map_values(|m: PatternMatch| m@).len()
                == all_pattern_matches@.len());
            assert(outp.1.pms.len() == pm_len - pm_base);
        }
        let mut ei = pm_base;
        while ei < pm_len
            invariant
                pm_base <= ei <= pm_len,
                pm_len == all_pattern_matches@.len(),
                pm_base == pms0.len(),
                outp.1.pms.len() == pm_len - pm_base,
                all_pattern_matches@.map_values(|m: PatternMatch| m@) == pms0 + outp.1.pms,
                events@.map_values(|e: AnalysisEvent| e@) == ev2 + outp.1.pms.take(
                    ei - pm_base,
                ).map_values(|m: crate::pattern::PatternMatchRep| EventRep::Pm(m)),
            decreases pm_len - ei,
        {
            let ghost evpre = events@.map_values(|e: AnalysisEvent| e@);
            proof {
                assert(all_pattern_matches@.map_values(|m: PatternMatch| m@)[ei as int] == (pms0
                    + outp.1.pms)[ei as int]);
                assert(all_pattern_matches@[ei as int]@ == outp.1.pms[ei - pm_base]);
            }
            events.push(AnalysisEvent::PatternMatch(all_pattern_matches[ei].clone_pm()));
            proof {
                assert(events@.map_values(|e: AnalysisEvent| e@) =~= evpre.push(
                    EventRep::Pm(outp.1.pms[ei - pm_base]),
                ));
                assert(outp.1.pms.take(ei + 1 - pm_base) =~= outp.1.pms.take(ei - pm_base).push(
                    outp.1.pms[ei - pm_base],
                ));
                assert(events@.map_values(|e: AnalysisEvent| e@) =~= ev2 + outp.1.pms.take(
                    ei + 1 - pm_base,
                ).map_values(|m: crate::pattern::PatternMatchRep| EventRep::Pm(m)));
            }
            ei = ei + 1;
        }
        let ghost ev3 = ev2 + outp.1.pms.map_values(
            |m: crate::pattern::PatternMatchRep| EventRep::Pm(m),
        );
        proof {
            assert(outp.1.pms.take(pm_len - pm_base) =~= outp.1.pms);
            assert(events@.map_values(|e: AnalysisEvent| e@) =~= ev3);
        }
        processed = processed + 1;
        if processed % 500 == 0 {
            let ghost evpre = events@.map_values(|e: AnalysisEvent| e@);
            events.push(AnalysisEvent::Progress { lines_processed: processed });
            proof {
                assert(events@.map_values(|e: AnalysisEvent| e@) =~= evpre.push(
                    EventRep::Progress(processed),
                ));
            }
        }
        proof {
            assert((lines_done + 1) % 500 == processed as int % 500);
            assert(events@.map_values(|e: AnalysisEvent| e@) =~= ev0 + line_events(
                outp.1,
                lines_done + 1,
            ));
            assert(state_manager.states_seq() == outp.0.states);
            assert(pattern_eval.progress@ =~= outp.0.progress);
            let rest = run_lines(
                ids0,
                names0,
                rules@,
                patterns@,
                outp.0,
                plines.skip(mi + 1),
                *time_range,
            );
            assert(after_start(*time_range, plines[mi as int].line.timestamp));
            assert(before_end(*time_range, plines[mi as int].line.timestamp));
            assert(run_lines(ids0, names0, rules@, patterns@, st_in, plines.skip(mi as int), *time_range)
                == RunOut {
                rms: outp.1.rms + rest.rms,
                pms: outp.1.pms + rest.pms,
                scs: outp.1.changes + rest.scs,
                lines: 1 + rest.lines,
            });
            assert(rms0 + (outp.1.rms + rest.rms) =~= (rms0 + outp.1.rms) + rest.rms);
            assert(pms0 + (outp.1.pms + rest.pms) =~= (pms0 + outp.1.pms) + rest.pms);
            assert(jcs0 + (outp.1.changes + rest.scs) =~= (jcs0 + outp.1.changes) + rest.scs);
            let rest_ev = run_events(
                ids0,
                names0,
                rules@,
                patterns@,
                outp.0,
                plines.skip(mi + 1),
                *time_range,
                lines_done + 1,
            );
            assert(run_events(
                ids0,
                names0,
                rules@,
                patterns@,
                st_in,
                plines.skip(mi as int),
                *time_range,
                lines_done,
            ) == line_events(outp.1, lines_done + 1) + rest_ev);
            assert(ev0 + (line_events(outp.1, lines_done + 1) + rest_ev) =~= (ev0 + line_events(
                outp.1,
                lines_done + 1,
            )) + rest_ev);
            lines_done = lines_done + 1;
        }
        mi = mi + 1;
    }
    let ghost evdone = events@.map_values(|e: AnalysisEvent| e@);
    events.push(
        AnalysisEvent::Complete {
            total_lines: processed,
            total_rule_matches: all_rule_matches.len() as u64,
            total_pattern_matches: all_pattern_matches.len() as u64,
            total_state_changes: all_state_changes.len() as u64,
        },
    );
    proof {
        assert(events@.map_values(|e: AnalysisEvent| e@) =~= evdone.push(
            EventRep::Complete(
                processed,
                all_rule_matches@.len() as u64,
                all_pattern_matches@.len() as u64,
                all_state_changes@.len() as u64,
            ),
        ));
        assert(events@.map_values(|e: AnalysisEvent| e@) =~= events_spec(
            sources@,
            templates@,
            timestamp_templates@,
            tviews,
            rules@,
            rulesets@,
            patterns@,
            *time_range,
        ));
    }
    Ok(
        (
            AnalysisResult {
                rule_matches: all_rule_matches,
                pattern_matches: all_pattern_matches,
                state_changes: all_state_changes,
            },
            events,
        ),
    )
}

/// A run total split into what is already emitted and what the rest
/// of the stream contributes.
pub open spec fn combine_out(
    rms: Seq<RuleMatchRep>,
    pms: Seq<crate::pattern::PatternMatchRep>,
    scs: Seq<StateChangeRep>,
    done: int,
    rest: RunOut,
) -> RunOut {
    RunOut {
        rms: rms + rest.rms,
        pms: pms + rest.pms,
        scs: scs + rest.scs,
        lines: done + rest.lines,
    }
}


/// Runs the full analysis pipeline and collects the results
/// (`analyze_spec`).  Succeeds exactly when every rule compiles and
/// every source parses; the error carries the kind of the first
/// failure.
pub fn analyze(
    sources: &Vec<Source>,
    texts: &Vec<String>,
    templates: &Vec<SourceTemplate>,
    timestamp_templates: &Vec<TimestampTemplate>,
    rules: &Vec<LogRule>,
    rulesets: &Vec<crate::model::Ruleset>,
    patterns: &Vec<Pattern>,
    time_range: &TimeRange,
) -> (r: Result<AnalysisResult, AnalysisError>)
    requires
        texts@.len() == sources@.len(),
    ensures
        r is Ok <==> setup_ok(
            sources@,
            templates@,
            timestamp_templates@,
            texts_view(texts@),
            rules@,
        ),
        r matches Ok(res) ==> {
            let out = analyze_spec(
                sources@,
                templates@,
                timestamp_templates@,
                texts_view(texts@),
                rules@,
                rulesets@,
                patterns@,
                *time_range,
            );
            &&& res.rule_matches@.map_values(|m: RuleMatch| m@) == out.rms
            &&& res.pattern_matches@.map_values(|m: PatternMatch| m@) == out.pms
            &&& res.state_changes@.map_values(|c: StateChange| c@) == out.scs
        },
        r matches Err(e) ==> {
            if !(forall|i: int| 0 <= i < rules@.len() ==> rule_compiles(#[trigger] rules@[i])) {
                e is InvalidRegex
            } else {
                match first_source_failure(
                    sources@,
                    templates@,
                    timestamp_templates@,
                    texts_view(texts@),
                    sources@.len() as int,
                ) {
                    Some(SourceFail::MissingTemplate) => e is ParseError,
                    Some(SourceFail::BadRegex) => e is InvalidRegex,
                    Some(SourceFail::Entry(k)) => entry_err_class(e, k),
                    None => false,
                }
            }
        },
{
    match run_analysis(
        sources,
        texts,
        templates,
        timestamp_templates,
        rules,
        rulesets,
        patterns,
        time_range,
    ) {
        Ok((res, _events)) => Ok(res),
        Err(e) => Err(e),
    }
}

/// Runs the full analysis pipeline and hands back the event stream
/// the streaming variant would send: the per-line state changes,
/// rule matches and pattern firings in order, a progress marker every
/// five hundred processed lines, and a terminal completion marker
/// (`events_spec`).
pub fn analyze_events(
    sources: &Vec<Source>,
    texts: &Vec<String>,
    templates: &Vec<SourceTemplate>,
    timestamp_templates: &Vec<TimestampTemplate>,
    rules: &Vec<LogRule>,
    rulesets: &Vec<crate::model::Ruleset>,
    patterns: &Vec<Pattern>,
    time_range: &TimeRange,
) -> (r: Result<Vec<AnalysisEvent>, AnalysisError>)
    requires
        texts@.len() == sources@.len(),
    ensures
        r is Ok <==> setup_ok(
            sources@,
            templates@,
            timestamp_templates@,
            texts_view(texts@),
            rules@,
        ),
        r matches Ok(events) ==> events@.map_values(|e: AnalysisEvent| e@) == events_spec(
            sources@,
            templates@,
            timestamp_templates@,
            texts_view(texts@),
            rules@,
            rulesets@,
            patterns@,
            *time_range,
        ),
{
    match run_analysis(
        sources,
        texts,
        templates,
        timestamp_templates,
        rules,
        rulesets,
        patterns,
        time_range,
    ) {
        Ok((_res, events)) => Ok(events),
        Err(e) => Err(e),
    }
}

#[verifier::external_type_specification]
#[verifier::external_body]
#[verifier::reject_recursive_types(T)]
pub struct ExSender<T>(std::sync::mpsc::Sender<T>);

/// Relies on `std::sync::mpsc::Sender::send`: hands one event to the
/// channel; `false` when the receiver is gone.  Whether a send is
/// accepted depends on the receiver, so nothing more is promised.
#[verifier::external_body]
fn send_event(tx: &std::sync::mpsc::Sender<AnalysisEvent>, ev: AnalysisEvent) -> bool {
    tx.send(ev).is_ok()
}

/// Runs the analysis pipeline, streaming every event through the
/// channel (`events_spec`): state changes before the rule match of
/// the same line, pattern firings after, a progress marker every five
/// hundred processed lines and a terminal completion marker.  A
/// closed channel is not an error: the driver returns cleanly.
/// Succeeds exactly when every rule compiles and every source parses.
pub fn analyze_streaming(
    sources: &Vec<Source>,
    texts: &Vec<String>,
    templates: &Vec<SourceTemplate>,
    timestamp_templates: &Vec<TimestampTemplate>,
    rules: &Vec<LogRule>,
    rulesets: &Vec<crate::model::Ruleset>,
    patterns: &Vec<Pattern>,
    tx: std::sync::mpsc::Sender<AnalysisEvent>,
    time_range: &TimeRange,
) -> (r: Result<(), AnalysisError>)
    requires
        texts@.len() == sources@.len(),
    ensures
        r is Ok <==> setup_ok(
            sources@,
            templates@,
            timestamp_templates@,
            texts_view(texts@),
            rules@,
        ),
        r matches Err(e) ==> {
            if !(forall|i: int| 0 <= i < rules@.len() ==> rule_compiles(#[trigger] rules@[i])) {
                e is InvalidRegex
            } else {
                match first_source_failure(
                    sources@,
                    templates@,
                    timestamp_templates@,
                    texts_view(texts@),
                    sources@.len() as int,
                ) {
                    Some(SourceFail::MissingTemplate) => e is ParseError,
                    Some(SourceFail::BadRegex) => e is InvalidRegex,
                    Some(SourceFail::Entry(k)) => entry_err_class(e, k),
                    None => false,
                }
            }
        },
{
    let mut events = match run_analysis(
        sources,
        texts,
        templates,
        timestamp_templates,
        rules,
        rulesets,
        patterns,
        time_range,
    ) {
        Ok((_res, events)) => events,
        Err(e) => {
            return Err(e);
        },
    };
    while events.len() > 0
        invariant
            setup_ok(sources@, templates@, timestamp_templates@, texts_view(texts@), rules@),
        decreases events@.len(),
    {
        let ev = events.remove(0);
        if !send_event(&tx, ev) {
            return Ok(());
        }
    }
    Ok(())
}

/// The rule-match events of the streamed run are exactly the sync
/// result's rule matches, in the same order — so for every line both
/// variants emit the same rule matches.
pub proof fn lemma_streaming_matches_sync(
    ids: Map<Seq<char>, u64>,
    names: Map<u64, Seq<char>>,
    rules: Seq<LogRule>,
    patterns: Seq<Pattern>,
    st: St,
    plines: Seq<ProcRep>,
    range: TimeRange,
    done: int,
)
    ensures
        rm_events(run_events(ids, names, rules, patterns, st, plines, range, done)) == run_lines(
            ids,
            names,
            rules,
            patterns,
            st,
            plines,
            range,
        ).rms,
    decreases plines.len(),
{
    if plines.len() > 0 {
        let ts = plines[0].line.timestamp;
        if !after_start(range, ts) {
            lemma_streaming_matches_sync(ids, names, rules, patterns, st, plines.skip(1), range, done);
        } else if !before_end(range, ts) {
            assert(rm_events(Seq::<EventRep>::empty()) =~= Seq::<RuleMatchRep>::empty());
        } else {
            let (st2, out) = line_step(ids, names, rules, patterns, st, plines[0]);
            lemma_streaming_matches_sync(
                ids,
                names,
                rules,
                patterns,
                st2,
                plines.skip(1),
                range,
                done + 1,
            );
            let seg = line_events(out, done + 1);
            lemma_rm_events_concat(
                seg,
                run_events(ids, names, rules, patterns, st2, plines.skip(1), range, done + 1),
            );
            lemma_rm_events_of_segment(out, done + 1);
        }
    } else {
        assert(rm_events(Seq::<EventRep>::empty()) =~= Seq::<RuleMatchRep>::empty());
    }
}

/// The rule matches among a stream of events, in order.
pub open spec fn rm_events(evs: Seq<EventRep>) -> Seq<RuleMatchRep>
    decreases evs.len(),
{
    if evs.len() == 0 {
        Seq::empty()
    } else {
        let rest = rm_events(evs.skip(1));
        match evs[0] {
            EventRep::Rm(m) => seq![m] + rest,
            _ => rest,
        }
    }
}

proof fn lemma_rm_events_concat(a: Seq<EventRep>, b: Seq<EventRep>)
    ensures
        rm_events(a + b) == rm_events(a) + rm_events(b),
    decreases a.len(),
{
    if a.len() == 0 {
        assert(a + b =~= b);
        assert(rm_events(a) =~= Seq::<RuleMatchRep>::empty());
        assert(rm_events(a) + rm_events(b) =~= rm_events(b));
    } else {
        assert((a + b).skip(1) =~= a.skip(1) + b);
        lemma_rm_events_concat(a.skip(1), b);
        match a[0] {
            EventRep::Rm(m) => {
                assert(rm_events(a + b) =~= rm_events(a) + rm_events(b));
            },
            _ => {
                assert(rm_events(a + b) =~= rm_events(a) + rm_events(b));
            },
        }
    }
}

proof fn lemma_rm_events_of_segment(out: LineOut, done_after: int)
    ensures
        rm_events(line_events(out, done_after)) == out.rms,
{
    let scs = out.changes.map_values(|c: StateChangeRep| EventRep::Sc(c));
    let rms = out.rms.map_values(|m: RuleMatchRep| EventRep::Rm(m));
    let pms = out.pms.map_values(|m: crate::pattern::PatternMatchRep| EventRep::Pm(m));
    let tail = if done_after % 500 == 0 {
        seq![EventRep::Progress(done_after as u64)]
    } else {
        Seq::<EventRep>::empty()
    };
    lemma_rm_events_concat(scs + rms + pms, tail);
    lemma_rm_events_concat(scs + rms, pms);
    lemma_rm_events_concat(scs, rms);
    lemma_rm_events_none(scs);
    lemma_rm_events_none(pms);
    lemma_rm_events_none(tail);
    lemma_rm_events_all(out.rms);
    assert(line_events(out, done_after) == scs + rms + pms + tail);
    assert(rm_events(line_events(out, done_after)) =~= out.rms);
}

proof fn lemma_rm_events_none(evs: Seq<EventRep>)
    requires
        forall|i: int| 0 <= i < evs.len() ==> !((#[trigger] evs[i]) is Rm),
    ensures
        rm_events(evs) == Seq::<RuleMatchRep>::empty(),
    decreases evs.len(),
{
    if evs.len() > 0 {
        assert(forall|i: int|
            0 <= i < evs.len() - 1 ==> (#[trigger] evs.skip(1)[i]) == evs[i + 1]);
        lemma_rm_events_none(evs.skip(1));
    }
}

proof fn lemma_rm_events_all(rms: Seq<RuleMatchRep>)
    ensures
        rm_events(rms.map_values(|m: RuleMatchRep| EventRep::Rm(m))) == rms,
    decreases rms.len(),
{
    if rms.len() > 0 {
        let evs = rms.map_values(|m: RuleMatchRep| EventRep::Rm(m));
        assert(evs.skip(1) =~= rms.skip(1).map_values(|m: RuleMatchRep| EventRep::Rm(m)));
        lemma_rm_events_all(rms.skip(1));
        assert(rm_events(evs) =~= seq![rms[0]] + rms.skip(1));
        assert(seq![rms[0]] + rms.skip(1) =~= rms);
    } else {
        assert(rm_events(rms.map_values(|m: RuleMatchRep| EventRep::Rm(m)))
            =~= Seq::<RuleMatchRep>::empty());
    }
}

/// With the end bound set, every emitted timestamp is at most the
/// bound; with the start bound set, at least it: rule matches carry
/// their line's timestamp, state changes and pattern firings are
/// stamped with it, and only lines inside the range are applied.
pub proof fn lemma_time_range_bounds(
    ids: Map<Seq<char>, u64>,
    names: Map<u64, Seq<char>>,
    rules: Seq<LogRule>,
    patterns: Seq<Pattern>,
    st: St,
    plines: Seq<ProcRep>,
    range: TimeRange,
)
    ensures
        forall|i: int|
            0 <= i < run_lines(ids, names, rules, patterns, st, plines, range).rms.len() ==> {
                let t = (#[trigger] run_lines(ids, names, rules, patterns, st, plines, range).rms[i]).log_line.timestamp;
                after_start(range, t) && before_end(range, t)
            },
        forall|i: int|
            0 <= i < run_lines(ids, names, rules, patterns, st, plines, range).scs.len() ==> {
                let t = (#[trigger] run_lines(ids, names, rules, patterns, st, plines, range).scs[i]).timestamp;
                after_start(range, t) && before_end(range, t)
            },
        forall|i: int|
            0 <= i < run_lines(ids, names, rules, patterns, st, plines, range).pms.len() ==> {
                let t = (#[trigger] run_lines(ids, names, rules, patterns, st, plines, range).pms[i]).timestamp;
                after_start(range, t) && before_end(range, t)
            },
    decreases plines.len(),
{
    if plines.len() > 0 {
        let ts = plines[0].line.timestamp;
        if !after_start(range, ts) {
            lemma_time_range_bounds(ids, names, rules, patterns, st, plines.skip(1), range);
        } else if !before_end(range, ts) {
        } else {
            let (st2, out) = line_step(ids, names, rules, patterns, st, plines[0]);
            lemma_time_range_bounds(ids, names, rules, patterns, st2, plines.skip(1), range);
            lemma_line_step_timestamps(ids, names, rules, patterns, st, plines[0]);
        }
    }
}

/// Every record one line emits carries that line's timestamp.
proof fn lemma_line_step_timestamps(
    ids: Map<Seq<char>, u64>,
    names: Map<u64, Seq<char>>,
    rules: Seq<LogRule>,
    patterns: Seq<Pattern>,
    st: St,
    p: ProcRep,
)
    ensures
        forall|i: int|
            0 <= i < line_step(ids, names, rules, patterns, st, p).1.rms.len() ==> (
            #[trigger] line_step(ids, names, rules, patterns, st, p).1.rms[i]).log_line.timestamp
                == p.line.timestamp,
        forall|i: int|
            0 <= i < line_step(ids, names, rules, patterns, st, p).1.changes.len() ==> (
            #[trigger] line_step(ids, names, rules, patterns, st, p).1.changes[i]).timestamp
                == p.line.timestamp,
        forall|i: int|
            0 <= i < line_step(ids, names, rules, patterns, st, p).1.pms.len() ==> (
            #[trigger] line_step(ids, names, rules, patterns, st, p).1.pms[i]).timestamp
                == p.line.timestamp,
{
    let sid = p.line.source_id;
    let ts = p.line.timestamp;
    let name = name_or_empty(names, sid);
    let (st1, jcs) = match p.json_fields {
        Some(fs) => {
            let res = apply_fields(state_in(st.states, sid), fs, ts);
            (seq_put(st.states, sid, res.0), tag_changes(res.1, ts, sid, name, 0))
        },
        None => (st.states, Seq::<StateChangeRep>::empty()),
    };
    lemma_apply_matches_timestamps(st1, p.line, p.rule_matches, rules, name, p.rule_matches.len() as int);
    let stepped = apply_matches(st1, p.line, p.rule_matches, rules, name, p.rule_matches.len() as int);
    let out = line_step(ids, names, rules, patterns, st, p).1;
    assert(out.changes == jcs + stepped.1);
    assert(out.rms == stepped.2);
    assert forall|i: int| 0 <= i < out.changes.len() implies (#[trigger] out.changes[i]).timestamp
        == ts by {
        if i < jcs.len() {
            assert(out.changes[i] == jcs[i]);
        } else {
            assert(out.changes[i] == stepped.1[i - jcs.len()]);
        }
    }
}

proof fn lemma_apply_matches_timestamps(
    states: Seq<(u64, Map<Seq<char>, TrackedRep>)>,
    line: LineRep,
    ms: Seq<(u64, Map<Seq<char>, ValueRep>)>,
    rules: Seq<LogRule>,
    name: Seq<char>,
    n: int,
)
    ensures
        forall|i: int|
            0 <= i < apply_matches(states, line, ms, rules, name, n).1.len() ==> (
            #[trigger] apply_matches(states, line, ms, rules, name, n).1[i]).timestamp
                == line.timestamp,
        forall|i: int|
            0 <= i < apply_matches(states, line, ms, rules, name, n).2.len() ==> (
            #[trigger] apply_matches(states, line, ms, rules, name, n).2[i]).log_line.timestamp
                == line.timestamp,
    decreases n,
{
    if n > 0 {
        lemma_apply_matches_timestamps(states, line, ms, rules, name, n - 1);
    }
}

/// Parses an optional start/end pair of datetime strings, accepting
/// `%Y-%m-%dT%H:%M:%S` and `%Y-%m-%d %H:%M:%S`.
#[derive(Debug, Clone)]
pub struct TimeRangeQuery {
    pub start: Option<String>,
    pub end: Option<String>,
}

/// What one bound string parses to under the two accepted formats.
pub open spec fn bound_spec(s: Seq<char>) -> Option<Timestamp> {
    match crate::times::chrono_parse(s, "%Y-%m-%dT%H:%M:%S"@) {
        Some(ts) => Some(ts),
        None => crate::times::chrono_parse(s, "%Y-%m-%d %H:%M:%S"@),
    }
}

impl Default for TimeRangeQuery {
    /// No bounds.
    fn default() -> (r: TimeRangeQuery)
        ensures
            r.start is None && r.end is None,
    {
        TimeRangeQuery { start: None, end: None }
    }
}

impl TimeRangeQuery {
    /// Parses both bounds; a string neither format accepts is an
    /// error.
    pub fn to_time_range(&self) -> (r: Result<TimeRange, String>)
        ensures
            match r {
                Ok(tr) => {
                    &&& (match self.start {
                        Some(s) => bound_spec(s@) matches Some(ts) && tr.start == Some(ts),
                        None => tr.start is None,
                    })
                    &&& (match self.end {
                        Some(s) => bound_spec(s@) matches Some(ts) && tr.end == Some(ts),
                        None => tr.end is None,
                    })
                },
                Err(_) => (self.start matches Some(s) && bound_spec(s@) is None) || (
                self.end matches Some(s) && bound_spec(s@) is None),
            },
    {
        let start = match &self.start {
            Some(s) => match Self::parse_bound(s.as_str()) {
                Some(ts) => Some(ts),
                None => {
                    return Err(Self::bad_bound(s.as_str()));
                },
            },
            None => None,
        };
        let end = match &self.end {
            Some(s) => match Self::parse_bound(s.as_str()) {
                Some(ts) => Some(ts),
                None => {
                    return Err(Self::bad_bound(s.as_str()));
                },
            },
            None => None,
        };
        Ok(TimeRange { start, end })
    }

    fn parse_bound(s: &str) -> (r: Option<Timestamp>)
        ensures
            r == bound_spec(s@),
    {
        match crate::times::parse_datetime(s, "%Y-%m-%dT%H:%M:%S") {
            Some(ts) => Some(ts),
            None => crate::times::parse_datetime(s, "%Y-%m-%d %H:%M:%S"),
        }
    }

    fn bad_bound(s: &str) -> String {
        let mut m = String::new();
        m.append("invalid datetime '");
        m.append(s);
        m.append("'");
        m
    }
}

} // verus!




