//! The ordered-predicate pattern evaluator: per-pattern progress with
//! re-validation of earlier predicates, reset on invalidation, and
//! re-firing after full satisfaction.

use vstd::prelude::*;

use crate::model::{val_cmp, val_eq, Operand, Operator, Pattern, PatternPredicate, ValueRep};
use crate::model::TrackedRep;
use crate::state::{lookup_in, snapshot_of, Snapshot, StateManager};
use crate::text;
use crate::times::Timestamp;

verus! {

/// A pattern firing: the pattern's id, the timestamp of the line that
/// completed it (stamped by the driver), and a copy of all state at
/// that moment.
#[derive(Debug, Clone)]
pub struct PatternMatch {
    pub pattern_id: u64,
    pub timestamp: Timestamp,
    pub state_snapshot: Snapshot,
}

/// The model of a pattern firing.
pub struct PatternMatchRep {
    pub pattern_id: u64,
    pub timestamp: Timestamp,
    pub state_snapshot: Map<Seq<char>, Map<Seq<char>, TrackedRep>>,
}

impl View for PatternMatch {
    type V = PatternMatchRep;

    open spec fn view(&self) -> PatternMatchRep {
        PatternMatchRep {
            pattern_id: self.pattern_id,
            timestamp: self.timestamp,
            state_snapshot: self.state_snapshot@,
        }
    }
}

impl PatternMatch {
    /// A copy with the same fields.
    pub fn clone_pm(&self) -> (r: PatternMatch)
        ensures
            r@ == self@,
    {
        PatternMatch {
            pattern_id: self.pattern_id,
            timestamp: self.timestamp,
            state_snapshot: self.state_snapshot.clone_snap(),
        }
    }
}

/// Whether one predicate holds on the current state: the left-hand
/// value is the named source's state key; the operand is a literal or
/// another state lookup; comparisons follow `val_eq` / `val_cmp`, and
/// `Contains` is string containment.
pub open spec fn pred_holds(
    ids: Map<Seq<char>, u64>,
    states: Map<u64, Map<Seq<char>, TrackedRep>>,
    p: PatternPredicate,
) -> bool {
    let cur = lookup_in(ids, states, p.source_name@, p.state_key@);
    let opd = match p.operand {
        Operand::Literal(v) => Some(v@),
        Operand::StateRef { source_name, state_key } => lookup_in(
            ids,
            states,
            source_name@,
            state_key@,
        ),
    };
    match p.operator {
        Operator::Exists => cur is Some,
        Operator::Eq => cur matches Some(a) && opd matches Some(b) && val_eq(a, b),
        Operator::Neq => cur matches Some(a) && opd matches Some(b) && !val_eq(a, b),
        Operator::Gt => cur matches Some(a) && opd matches Some(b) && val_cmp(a, b) == Some(1int),
        Operator::Lt => cur matches Some(a) && opd matches Some(b) && val_cmp(a, b) == Some(-1int),
        Operator::Gte => cur matches Some(a) && opd matches Some(b) && (val_cmp(a, b) == Some(0int)
            || val_cmp(a, b) == Some(1int)),
        Operator::Lte => cur matches Some(a) && opd matches Some(b) && (val_cmp(a, b) == Some(0int)
            || val_cmp(a, b) == Some(-1int)),
        Operator::Contains => cur matches Some(ValueRep::Str(a)) && opd matches Some(
            ValueRep::Str(b),
        ) && text::contains_sub(a, b),
    }
}

/// Whether every predicate before `upto` holds.
pub open spec fn prevs_hold(
    ids: Map<Seq<char>, u64>,
    states: Map<u64, Map<Seq<char>, TrackedRep>>,
    pat: Pattern,
    upto: int,
) -> bool {
    forall|j: int| 0 <= j < upto ==> pred_holds(ids, states, #[trigger] pat.predicates@[j])
}

/// One evaluation step of one pattern: `(new progress, fired)`.  A
/// pattern with no predicates never advances and never fires.  When
/// the predicate at the progress index holds, earlier predicates are
/// re-checked: if one fails, progress resets without firing;
/// otherwise progress advances, and reaching the end fires the
/// pattern and resets progress so it may fire again.
pub open spec fn pattern_step(
    ids: Map<Seq<char>, u64>,
    states: Map<u64, Map<Seq<char>, TrackedRep>>,
    pat: Pattern,
    prog: int,
) -> (int, bool) {
    if pat.predicates.len() == 0 {
        (prog, false)
    } else if pred_holds(ids, states, pat.predicates@[prog]) {
        if !prevs_hold(ids, states, pat, prog) {
            (0, false)
        } else if prog + 1 == pat.predicates.len() {
            (0, true)
        } else {
            (prog + 1, false)
        }
    } else {
        (prog, false)
    }
}

/// A pattern with an empty predicate list never fires, whatever the
/// state and progress.
pub proof fn lemma_empty_pattern_never_fires(
    ids: Map<Seq<char>, u64>,
    states: Map<u64, Map<Seq<char>, TrackedRep>>,
    pat: Pattern,
    prog: int,
)
    requires
        pat.predicates.len() == 0,
    ensures
        pattern_step(ids, states, pat, prog).1 == false,
        pattern_step(ids, states, pat, prog).0 == prog,
{
}

/// A single-predicate pattern fires exactly when its predicate holds,
/// and its progress is 0 again afterwards — so over a run it fires at
/// every line where the condition holds.
pub proof fn lemma_single_predicate_refires(
    ids: Map<Seq<char>, u64>,
    states: Map<u64, Map<Seq<char>, TrackedRep>>,
    pat: Pattern,
)
    requires
        pat.predicates.len() == 1,
    ensures
        pattern_step(ids, states, pat, 0) == (0int, pred_holds(ids, states, pat.predicates@[0])),
{
    if pred_holds(ids, states, pat.predicates@[0]) {
        assert(prevs_hold(ids, states, pat, 0));
    }
}

/// Progress resets exactly when the pending predicate holds but some
/// previously satisfied earlier predicate no longer does; when the
/// pending predicate does not hold, progress is untouched.
pub proof fn lemma_progress_reset(
    ids: Map<Seq<char>, u64>,
    states: Map<u64, Map<Seq<char>, TrackedRep>>,
    pat: Pattern,
    prog: int,
)
    requires
        0 < prog < pat.predicates.len(),
    ensures
        pred_holds(ids, states, pat.predicates@[prog]) && !prevs_hold(ids, states, pat, prog)
            ==> pattern_step(ids, states, pat, prog) == (0int, false),
        !pred_holds(ids, states, pat.predicates@[prog]) ==> pattern_step(ids, states, pat, prog)
            == (prog, false),
        pred_holds(ids, states, pat.predicates@[prog]) && prevs_hold(ids, states, pat, prog)
            ==> pattern_step(ids, states, pat, prog).0 == (if prog + 1 == pat.predicates.len() {
            0int
        } else {
            prog + 1
        }),
{
}

/// Evaluates one predicate against the current state.
pub fn evaluate_predicate(pred: &PatternPredicate, state: &StateManager) -> (r: bool)
    requires
        state.wf(),
    ensures
        r == pred_holds(state.ids_view(), state.states_view(), *pred),
{
    let current_val = state.get_state_by_name(pred.source_name.as_str(), pred.state_key.as_str());
    let operand_ref: Option<&crate::model::StateValue> = match &pred.operand {
        Operand::Literal(v) => Some(v),
        Operand::StateRef { source_name, state_key } => state.get_state_by_name(
            source_name.as_str(),
            state_key.as_str(),
        ),
    };
    match pred.operator {
        Operator::Exists => current_val.is_some(),
        Operator::Eq => match (current_val, operand_ref) {
            (Some(a), Some(b)) => a.value_eq(b),
            _ => false,
        },
        Operator::Neq => match (current_val, operand_ref) {
            (Some(a), Some(b)) => !a.value_eq(b),
            _ => false,
        },
        Operator::Gt => match (current_val, operand_ref) {
            (Some(a), Some(b)) => match a.value_cmp(b) {
                Some(c) => c == 1,
                None => false,
            },
            _ => false,
        },
        Operator::Lt => match (current_val, operand_ref) {
            (Some(a), Some(b)) => match a.value_cmp(b) {
                Some(c) => c == -1,
                None => false,
            },
            _ => false,
        },
        Operator::Gte => match (current_val, operand_ref) {
            (Some(a), Some(b)) => match a.value_cmp(b) {
                Some(c) => c == 0 || c == 1,
                None => false,
            },
            _ => false,
        },
        Operator::Lte => match (current_val, operand_ref) {
            (Some(a), Some(b)) => match a.value_cmp(b) {
                Some(c) => c == 0 || c == -1,
                None => false,
            },
            _ => false,
        },
        Operator::Contains => match (current_val, operand_ref) {
            (
                Some(crate::model::StateValue::String(a)),
                Some(crate::model::StateValue::String(b)),
            ) => text::contains_str(a.as_str(), b.as_str()),
            _ => false,
        },
    }
}

/// Per-pattern progress: the index of the next predicate to satisfy.
pub struct PatternEvaluator {
    pub progress: Vec<usize>,
}

impl PatternEvaluator {
    /// Progress tracks the pattern list: one index per pattern, in
    /// range, and pinned to 0 for patterns without predicates.
    pub open spec fn wf_for(&self, patterns: Seq<Pattern>) -> bool {
        &&& self.progress@.len() == patterns.len()
        &&& forall|i: int|
            0 <= i < patterns.len() ==> ((#[trigger] patterns[i]).predicates.len() == 0 ==> self.progress@[i]
                == 0)
        &&& forall|i: int|
            0 <= i < patterns.len() ==> ((#[trigger] patterns[i]).predicates.len() > 0
                ==> self.progress@[i] < patterns[i].predicates.len())
    }

    /// A fresh evaluator: every pattern starts at progress 0.
    pub fn new(patterns: &Vec<Pattern>) -> (r: PatternEvaluator)
        ensures
            r.wf_for(patterns@),
            forall|i: int| 0 <= i < patterns@.len() ==> r.progress@[i] == 0,
    {
        let n = patterns.len();
        let mut progress: Vec<usize> = Vec::new();
        let mut i: usize = 0;
        while i < n
            invariant
                i <= n,
                progress@.len() == i,
                forall|j: int| 0 <= j < i ==> progress@[j] == 0,
            decreases n - i,
        {
            progress.push(0);
            i = i + 1;
        }
        PatternEvaluator { progress }
    }

    /// Evaluates all patterns against the current state: advances or
    /// resets each pattern's progress as `pattern_step` says, and
    /// hands back one match per pattern that fired, in pattern order,
    /// each carrying a snapshot of the state (the driver stamps the
    /// timestamp).
    pub fn evaluate_patterns(&mut self, patterns: &Vec<Pattern>, state: &StateManager) -> (matches:
        Vec<PatternMatch>)
        requires
            state.wf(),
            old(self).wf_for(patterns@),
        ensures
            final(self).wf_for(patterns@),
            forall|i: int|
                0 <= i < patterns@.len() ==> final(self).progress@[i] == pattern_step(
                    state.ids_view(),
                    state.states_view(),
                    #[trigger] patterns@[i],
                    old(self).progress@[i] as int,
                ).0,
            matches@.map_values(|m: PatternMatch| m.pattern_id) == fired_ids(
                state.ids_view(),
                state.states_view(),
                patterns@,
                old(self).progress@,
                patterns@.len() as int,
            ),
            forall|k: int|
                0 <= k < matches@.len() ==> {
                    &&& (#[trigger] matches@[k]).state_snapshot@ == snapshot_of(
                        state.states_seq(),
                        state.names_view(),
                    )
                    &&& matches@[k].state_snapshot.wf()
                    &&& matches@[k].timestamp == (Timestamp { secs: 0, nanos: 0 })
                },
    {
        let ghost prog0 = self.progress@;
        let n = patterns.len();
        let mut matches: Vec<PatternMatch> = Vec::new();
        let mut i: usize = 0;
        while i < n
            invariant
                i <= n,
                n == patterns@.len(),
                state.wf(),
                self.progress@.len() == patterns@.len(),
                forall|j: int| i <= j < n ==> self.progress@[j] == prog0[j],
                forall|j: int|
                    0 <= j < i ==> #[trigger] self.progress@[j] == pattern_step(
                        state.ids_view(),
                        state.states_view(),
                        patterns@[j],
                        prog0[j] as int,
                    ).0,
                forall|j: int|
                    0 <= j < n ==> ((#[trigger] patterns@[j]).predicates.len() == 0 ==> prog0[j]
                        == 0),
                forall|j: int|
                    0 <= j < n ==> ((#[trigger] patterns@[j]).predicates.len() > 0 ==> prog0[j]
                        < patterns@[j].predicates.len()),
                matches@.map_values(|m: PatternMatch| m.pattern_id) == fired_ids(
                    state.ids_view(),
                    state.states_view(),
                    patterns@,
                    prog0,
                    i as int,
                ),
                forall|k: int|
                    0 <= k < matches@.len() ==> {
                        &&& (#[trigger] matches@[k]).state_snapshot@ == snapshot_of(
                            state.states_seq(),
                            state.names_view(),
                        )
                        &&& matches@[k].state_snapshot.wf()
                        &&& matches@[k].timestamp == (Timestamp { secs: 0, nanos: 0 })
                    },
            decreases n - i,
        {
            let pattern = &patterns[i];
            let ghost step = pattern_step(
                state.ids_view(),
                state.states_view(),
                patterns@[i as int],
                prog0[i as int] as int,
            );
            if pattern.predicates.len() > 0 {
                let progress = self.progress[i];
                let current_pred = &pattern.predicates[progress];
                if evaluate_predicate(current_pred, state) {
                    let mut all_previous_hold = true;
                    let mut prev_idx: usize = 0;
                    while prev_idx < progress
                        invariant
                            prev_idx <= progress,
                            progress < pattern.predicates@.len(),
                            state.wf(),
                            all_previous_hold == (forall|j: int|
                                0 <= j < prev_idx ==> pred_holds(
                                    state.ids_view(),
                                    state.states_view(),
                                    #[trigger] pattern.predicates@[j],
                                )),
                        decreases progress - prev_idx,
                    {
                        if !evaluate_predicate(&pattern.predicates[prev_idx], state) {
                            all_previous_hold = false;
                            prev_idx = progress;
                        } else {
                            prev_idx = prev_idx + 1;
                        }
                    }
                    if !all_previous_hold {
                        self.progress.set(i, 0);
                    } else {
                        proof {
                            assert(prevs_hold(
                                state.ids_view(),
                                state.states_view(),
                                patterns@[i as int],
                                progress as int,
                            ));
                        }
                        if progress + 1 == pattern.predicates.len() {
                            let snap = state.snapshot();
                            matches.push(
                                PatternMatch {
                                    pattern_id: pattern.id,
                                    timestamp: Timestamp { secs: 0, nanos: 0 },
                                    state_snapshot: snap,
                                },
                            );
                            self.progress.set(i, 0);
                        } else {
                            self.progress.set(i, progress + 1);
                        }
                    }
                }
            }
            proof {
                let ids = matches@.map_values(|m: PatternMatch| m.pattern_id);
                if step.1 {
                    assert(ids =~= fired_ids(
                        state.ids_view(),
                        state.states_view(),
                        patterns@,
                        prog0,
                        i as int,
                    ).push(patterns@[i as int].id));
                } else {
                    assert(ids =~= fired_ids(
                        state.ids_view(),
                        state.states_view(),
                        patterns@,
                        prog0,
                        i as int,
                    ));
                }
            }
            i = i + 1;
        }
        matches
    }
}

/// The ids of the patterns among the first `n` that fire in one
/// evaluation pass, in pattern order.
pub open spec fn fired_ids(
    ids: Map<Seq<char>, u64>,
    states: Map<u64, Map<Seq<char>, TrackedRep>>,
    patterns: Seq<Pattern>,
    prog: Seq<usize>,
    n: int,
) -> Seq<u64>
    decreases n,
{
    if n <= 0 {
        Seq::empty()
    } else {
        let pre = fired_ids(ids, states, patterns, prog, n - 1);
        if pattern_step(ids, states, patterns[n - 1], prog[n - 1] as int).1 {
            pre.push(patterns[n - 1].id)
        } else {
            pre
        }
    }
}

} // verus!
