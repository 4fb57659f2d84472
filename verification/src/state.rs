//! Per-source state: key/value maps with tracked timestamps, the
//! state manager, and the replace/accumulate/clear mutation semantics
//! with its diff events.

use vstd::prelude::*;

use crate::assoc::{
    keys_distinct, lemma_map_of_absent, lemma_map_of_dom, lemma_map_of_get, lemma_map_of_push, lemma_map_of_remove,
    lemma_map_of_update, map_of,
};
use crate::model::{
    val_accumulate, val_eq, ExtractionMode, ExtractionRule, ExtractionType, Source, StateValue,
    TrackedRep, TrackedValue, ValueRep,
};
use crate::text;
use crate::times::Timestamp;

verus! {

/// A map from state keys to plain values, as extracted from one line
/// by one rule.
#[derive(Debug, Clone)]
pub struct ValueMap {
    entries: Vec<(String, StateValue)>,
}

impl View for ValueMap {
    type V = Map<Seq<char>, ValueRep>;

    open spec fn view(&self) -> Map<Seq<char>, ValueRep> {
        map_of(self.seq_view())
    }
}

impl ValueMap {
    pub closed spec fn seq_view(&self) -> Seq<(Seq<char>, ValueRep)> {
        self.entries@.map_values(|e: (String, StateValue)| (e.0@, e.1@))
    }

    pub open spec fn wf(&self) -> bool {
        keys_distinct(self.seq_view())
    }

    pub fn new() -> (r: ValueMap)
        ensures
            r@ == Map::<Seq<char>, ValueRep>::empty(),
            r.wf(),
    {
        let r = ValueMap { entries: Vec::new() };
        proof {
            assert(r.seq_view() =~= Seq::<(Seq<char>, ValueRep)>::empty());
        }
        r
    }

    fn index_of(&self, key: &str) -> (r: Option<usize>)
        ensures
            match r {
                Some(i) => i < self.entries@.len() && self.entries@[i as int].0@ == key@,
                None => forall|i: int|
                    0 <= i < self.entries@.len() ==> (#[trigger] self.entries@[i]).0@ != key@,
            },
    {
        let n = self.entries.len();
        let mut i: usize = 0;
        while i < n
            invariant
                i <= n,
                n == self.entries@.len(),
                forall|j: int| 0 <= j < i ==> (#[trigger] self.entries@[j]).0@ != key@,
            decreases n - i,
        {
            if text::str_eq(self.entries[i].0.as_str(), key) {
                return Some(i);
            }
            i = i + 1;
        }
        None
    }

    /// Looks a key up.
    pub fn get<'a>(&'a self, key: &str) -> (r: Option<&'a StateValue>)
        requires
            self.wf(),
        ensures
            match r {
                Some(v) => self@.dom().contains(key@) && self@[key@] == v@,
                None => !self@.dom().contains(key@),
            },
    {
        match self.index_of(key) {
            Some(i) => {
                proof {
                    lemma_map_of_get(self.seq_view(), i as int);
                }
                Some(&self.entries[i].1)
            },
            None => {
                proof {
                    lemma_map_of_absent(self.seq_view(), key@);
                }
                None
            },
        }
    }

    /// Inserts a value, replacing any previous value of the key.
    pub fn insert(&mut self, key: String, v: StateValue)
        requires
            old(self).wf(),
        ensures
            final(self).wf(),
            final(self)@ == old(self)@.insert(key@, v@),
    {
        let ghost s0 = self.seq_view();
        match self.index_of(key.as_str()) {
            Some(i) => {
                proof {
                    lemma_map_of_update(s0, i as int, v@);
                }
                self.entries.set(i, (key, v));
                proof {
                    assert(self.seq_view() =~= s0.update(i as int, (s0[i as int].0, v@)));
                }
            },
            None => {
                proof {
                    lemma_map_of_push(s0, key@, v@);
                }
                self.entries.push((key, v));
                proof {
                    assert(self.seq_view() =~= s0.push((key@, v@)));
                }
            },
        }
    }

    /// A copy with the same contents.
    pub fn clone_map(&self) -> (r: ValueMap)
        ensures
            r@ == self@,
            r.seq_view() == self.seq_view(),
            r.wf() == self.wf(),
    {
        let n = self.entries.len();
        let mut entries: Vec<(String, StateValue)> = Vec::new();
        let mut i: usize = 0;
        while i < n
            invariant
                i <= n,
                n == self.entries@.len(),
                entries@.len() == i,
                forall|j: int|
                    0 <= j < i ==> (#[trigger] entries@[j]).0@ == self.entries@[j].0@ && entries@[
                        j].1@ == self.entries@[j].1@,
            decreases n - i,
        {
            let k = self.entries[i].0.clone();
            let v = self.entries[i].1.clone_value();
            entries.push((k, v));
            i = i + 1;
        }
        let r = ValueMap { entries };
        proof {
            assert(r.seq_view() =~= self.seq_view());
        }
        r
    }
}

/// A map from state keys to tracked values: one source's state.
#[derive(Debug, Clone)]
pub struct StateMap {
    entries: Vec<(String, TrackedValue)>,
}

impl View for StateMap {
    type V = Map<Seq<char>, TrackedRep>;

    open spec fn view(&self) -> Map<Seq<char>, TrackedRep> {
        map_of(self.seq_view())
    }
}

impl StateMap {
    pub closed spec fn seq_view(&self) -> Seq<(Seq<char>, TrackedRep)> {
        self.entries@.map_values(|e: (String, TrackedValue)| (e.0@, e.1@))
    }

    pub open spec fn wf(&self) -> bool {
        keys_distinct(self.seq_view())
    }

    pub fn new() -> (r: StateMap)
        ensures
            r@ == Map::<Seq<char>, TrackedRep>::empty(),
            r.wf(),
    {
        let r = StateMap { entries: Vec::new() };
        proof {
            assert(r.seq_view() =~= Seq::<(Seq<char>, TrackedRep)>::empty());
        }
        r
    }

    fn index_of(&self, key: &str) -> (r: Option<usize>)
        ensures
            match r {
                Some(i) => i < self.entries@.len() && self.entries@[i as int].0@ == key@,
                None => forall|i: int|
                    0 <= i < self.entries@.len() ==> (#[trigger] self.entries@[i]).0@ != key@,
            },
    {
        let n = self.entries.len();
        let mut i: usize = 0;
        while i < n
            invariant
                i <= n,
                n == self.entries@.len(),
                forall|j: int| 0 <= j < i ==> (#[trigger] self.entries@[j]).0@ != key@,
            decreases n - i,
        {
            if text::str_eq(self.entries[i].0.as_str(), key) {
                return Some(i);
            }
            i = i + 1;
        }
        None
    }

    /// Looks a key up.
    pub fn get<'a>(&'a self, key: &str) -> (r: Option<&'a TrackedValue>)
        requires
            self.wf(),
        ensures
            match r {
                Some(v) => self@.dom().contains(key@) && self@[key@] == v@,
                None => !self@.dom().contains(key@),
            },
    {
        match self.index_of(key) {
            Some(i) => {
                proof {
                    lemma_map_of_get(self.seq_view(), i as int);
                }
                Some(&self.entries[i].1)
            },
            None => {
                proof {
                    lemma_map_of_absent(self.seq_view(), key@);
                }
                None
            },
        }
    }

    /// Inserts a value, replacing any previous value of the key.
    pub fn insert(&mut self, key: String, v: TrackedValue)
        requires
            old(self).wf(),
        ensures
            final(self).wf(),
            final(self)@ == old(self)@.insert(key@, v@),
    {
        let ghost s0 = self.seq_view();
        match self.index_of(key.as_str()) {
            Some(i) => {
                proof {
                    lemma_map_of_update(s0, i as int, v@);
                }
                self.entries.set(i, (key, v));
                proof {
                    assert(self.seq_view() =~= s0.update(i as int, (s0[i as int].0, v@)));
                }
            },
            None => {
                proof {
                    lemma_map_of_push(s0, key@, v@);
                }
                self.entries.push((key, v));
                proof {
                    assert(self.seq_view() =~= s0.push((key@, v@)));
                }
            },
        }
    }

    /// Removes a key, handing back the value it had.
    pub fn remove(&mut self, key: &str) -> (r: Option<TrackedValue>)
        requires
            old(self).wf(),
        ensures
            final(self).wf(),
            final(self)@ == old(self)@.remove(key@),
            match r {
                Some(v) => old(self)@.dom().contains(key@) && old(self)@[key@] == v@,
                None => !old(self)@.dom().contains(key@),
            },
    {
        let ghost s0 = self.seq_view();
        match self.index_of(key) {
            Some(i) => {
                proof {
                    lemma_map_of_get(s0, i as int);
                    lemma_map_of_remove(s0, i as int);
                }
                let e = self.entries.remove(i);
                proof {
                    assert(self.seq_view() =~= s0.remove(i as int));
                }
                Some(e.1)
            },
            None => {
                proof {
                    lemma_map_of_absent(s0, key@);
                    assert(old(self)@.remove(key@) =~= old(self)@);
                }
                None
            },
        }
    }

    /// The number of entries.
    pub fn len(&self) -> (r: usize)
        ensures
            r == self.seq_view().len(),
    {
        self.entries.len()
    }

    /// The entry at a position, for walking the map.
    pub fn entry_at<'a>(&'a self, i: usize) -> (r: &'a (String, TrackedValue))
        requires
            i < self.seq_view().len(),
        ensures
            (r.0@, r.1@) == self.seq_view()[i as int],
    {
        &self.entries[i]
    }

    /// A copy with the same contents.
    pub fn clone_map(&self) -> (r: StateMap)
        ensures
            r@ == self@,
            r.seq_view() == self.seq_view(),
            r.wf() == self.wf(),
    {
        let n = self.entries.len();
        let mut entries: Vec<(String, TrackedValue)> = Vec::new();
        let mut i: usize = 0;
        while i < n
            invariant
                i <= n,
                n == self.entries@.len(),
                entries@.len() == i,
                forall|j: int|
                    0 <= j < i ==> (#[trigger] entries@[j]).0@ == self.entries@[j].0@ && entries@[
                        j].1@ == self.entries@[j].1@,
            decreases n - i,
        {
            let k = self.entries[i].0.clone();
            let v = self.entries[i].1.clone_tracked();
            entries.push((k, v));
            i = i + 1;
        }
        let r = StateMap { entries };
        proof {
            assert(r.seq_view() =~= self.seq_view());
        }
        r
    }
}


/// The model of one emitted diff: key, old value, new value.
pub type ChangeRep = (Seq<char>, Option<ValueRep>, Option<ValueRep>);

pub open spec fn opt_val_view(v: Option<StateValue>) -> Option<ValueRep> {
    match v {
        Some(x) => Some(x@),
        None => None,
    }
}

/// The models of an emitted diff list.
pub open spec fn changes_view(cs: Seq<(String, Option<StateValue>, Option<StateValue>)>) -> Seq<
    ChangeRep,
> {
    cs.map_values(|c: (String, Option<StateValue>, Option<StateValue>)| (c.0@, opt_val_view(c.1), opt_val_view(c.2)))
}

/// Equality of optional values under value equality (`val_eq`).
pub open spec fn opt_val_eq(a: Option<ValueRep>, b: Option<ValueRep>) -> bool {
    match (a, b) {
        (Some(x), Some(y)) => val_eq(x, y),
        (None, None) => true,
        _ => false,
    }
}

/// The value a write stores: the new value under Replace, the
/// accumulation of the existing value with the new one under
/// Accumulate (plain write when the key was absent).
pub open spec fn written_value(old: Option<TrackedRep>, new0: ValueRep, mode: ExtractionMode) -> ValueRep {
    match mode {
        ExtractionMode::Replace => new0,
        ExtractionMode::Accumulate => match old {
            Some(t) => val_accumulate(t.value, new0),
            None => new0,
        },
    }
}

/// One write into a source's state: the key always gets the written
/// value with the new timestamp; a diff is emitted exactly when the
/// stored value changed under value equality.
pub open spec fn apply_write(
    m: Map<Seq<char>, TrackedRep>,
    k: Seq<char>,
    new0: ValueRep,
    mode: ExtractionMode,
    ts: Timestamp,
) -> (Map<Seq<char>, TrackedRep>, Seq<ChangeRep>) {
    let old = if m.dom().contains(k) {
        Some(m[k])
    } else {
        None
    };
    let w = written_value(old, new0, mode);
    let m2 = m.insert(k, TrackedRep { value: w, set_at: ts });
    if old matches Some(t) && val_eq(t.value, w) {
        (m2, Seq::empty())
    } else {
        (
            m2,
            seq![
                (
                    k,
                    match old {
                        Some(t) => Some(t.value),
                        None => None,
                    },
                    Some(w),
                ),
            ],
        )
    }
}

/// The effect of one extraction rule on a source's state: Clear
/// removes the key (a diff when it was present), Static writes the
/// rule's static text, Parsed writes the extracted value when the
/// extraction map carries the key.
pub open spec fn apply_one(
    m: Map<Seq<char>, TrackedRep>,
    extr: Map<Seq<char>, ValueRep>,
    r: ExtractionRule,
    ts: Timestamp,
) -> (Map<Seq<char>, TrackedRep>, Seq<ChangeRep>) {
    let k = r.state_key@;
    match r.extraction_type {
        ExtractionType::Clear => if m.dom().contains(k) {
            (m.remove(k), seq![(k, Some(m[k].value), None)])
        } else {
            (m, Seq::empty())
        },
        ExtractionType::Static => match r.static_value {
            Some(val) => apply_write(m, k, ValueRep::Str(val@), r.mode, ts),
            None => (m, Seq::empty()),
        },
        ExtractionType::Parsed => if extr.dom().contains(k) {
            apply_write(m, k, extr[k], r.mode, ts)
        } else {
            (m, Seq::empty())
        },
    }
}

/// The effect of a rule's extraction list, applied in declared order,
/// with the emitted diffs concatenated in that order.
pub open spec fn apply_rules(
    m: Map<Seq<char>, TrackedRep>,
    extr: Map<Seq<char>, ValueRep>,
    rules: Seq<ExtractionRule>,
    ts: Timestamp,
) -> (Map<Seq<char>, TrackedRep>, Seq<ChangeRep>)
    decreases rules.len(),
{
    if rules.len() == 0 {
        (m, Seq::empty())
    } else {
        let step = apply_one(m, extr, rules[0], ts);
        let rest = apply_rules(step.0, extr, rules.skip(1), ts);
        (rest.0, step.1 + rest.1)
    }
}

/// Every diff a mutation emits changes the value: old and new are
/// never equal under value equality.  No-op writes emit nothing.
pub proof fn lemma_changes_differ(
    m: Map<Seq<char>, TrackedRep>,
    extr: Map<Seq<char>, ValueRep>,
    rules: Seq<ExtractionRule>,
    ts: Timestamp,
)
    ensures
        forall|i: int|
            0 <= i < apply_rules(m, extr, rules, ts).1.len() ==> !opt_val_eq(
                (#[trigger] apply_rules(m, extr, rules, ts).1[i]).1,
                apply_rules(m, extr, rules, ts).1[i].2,
            ),
    decreases rules.len(),
{
    if rules.len() > 0 {
        let step = apply_one(m, extr, rules[0], ts);
        let rest = apply_rules(step.0, extr, rules.skip(1), ts);
        lemma_changes_differ(step.0, extr, rules.skip(1), ts);
        assert(forall|i: int| 0 <= i < step.1.len() ==> !opt_val_eq((#[trigger] step.1[i]).1, step.1[i].2));
        assert forall|i: int| 0 <= i < apply_rules(m, extr, rules, ts).1.len() implies !opt_val_eq(
            (#[trigger] apply_rules(m, extr, rules, ts).1[i]).1,
            apply_rules(m, extr, rules, ts).1[i].2,
        ) by {
            if i < step.1.len() {
                assert(apply_rules(m, extr, rules, ts).1[i] == step.1[i]);
            } else {
                assert(apply_rules(m, extr, rules, ts).1[i] == rest.1[i - step.1.len()]);
            }
        }
    }
}

/// Accumulating twice is accumulating the combined value, for
/// same-type integer and string values: integer addition wraps and is
/// associative, and comma-joining strings is associative.
pub proof fn lemma_accumulate_twice(s: ValueRep, a: ValueRep, b: ValueRep)
    requires
        (s is Int && a is Int && b is Int) || (s is Str && a is Str && b is Str),
    ensures
        val_accumulate(val_accumulate(s, a), b) == val_accumulate(s, val_accumulate(a, b)),
{
    match (s, a, b) {
        (ValueRep::Int(x), ValueRep::Int(y), ValueRep::Int(z)) => {
        },
        (ValueRep::Str(x), ValueRep::Str(y), ValueRep::Str(z)) => {
            assert((x + seq![','] + y) + seq![','] + z =~= x + seq![','] + (y + seq![','] + z));
        },
        _ => {
        },
    }
}

/// Applies a rule's extraction list to one source state map, handing
/// back the diffs in order (`apply_rules`).
pub fn apply_rules_map(
    m: &mut StateMap,
    extr: &ValueMap,
    rules: &Vec<ExtractionRule>,
    ts: Timestamp,
) -> (changes: Vec<(String, Option<StateValue>, Option<StateValue>)>)
    requires
        old(m).wf(),
        extr.wf(),
    ensures
        final(m).wf(),
        final(m)@ == apply_rules(old(m)@, extr@, rules@, ts).0,
        changes_view(changes@) == apply_rules(old(m)@, extr@, rules@, ts).1,
{
    let ghost m0 = m@;
    let ghost total = apply_rules(m0, extr@, rules@, ts);
    let mut changes: Vec<(String, Option<StateValue>, Option<StateValue>)> = Vec::new();
    let n = rules.len();
    let mut i: usize = 0;
    proof {
        assert(rules@.skip(0) =~= rules@);
        assert(changes_view(changes@) =~= Seq::<ChangeRep>::empty());
    }
    while i < n
        invariant
            i <= n,
            n == rules@.len(),
            m.wf(),
            extr.wf(),
            total == apply_rules(m0, extr@, rules@, ts),
            apply_rules(m@, extr@, rules@.skip(i as int), ts).0 == total.0,
            changes_view(changes@) + apply_rules(m@, extr@, rules@.skip(i as int), ts).1
                == total.1,
        decreases n - i,
    {
        let ghost mv = m@;
        let ghost rest = rules@.skip(i as int);
        proof {
            assert(rest[0] == rules@[i as int]);
            assert(rest.skip(1) =~= rules@.skip(i + 1));
        }
        let ghost step = apply_one(mv, extr@, rules@[i as int], ts);
        let ghost cs0 = changes@;
        let rule = &rules[i];
        let key = rule.state_key.as_str();
        match rule.extraction_type {
            ExtractionType::Clear => {
                let removed = m.remove(key);
                match removed {
                    Some(t) => {
                        changes.push((rule.state_key.clone(), Some(t.value), None));
                    },
                    None => {
                        proof {
                            assert(m@ =~= mv);
                        }
                    },
                }
            },
            ExtractionType::Static => {
                match &rule.static_value {
                    Some(val) => {
                        let new0 = StateValue::String(val.clone());
                        let old_val: Option<StateValue> = match m.get(key) {
                            Some(t) => Some(t.value.clone_value()),
                            None => None,
                        };
                        let written = match rule.mode {
                            ExtractionMode::Replace => new0,
                            ExtractionMode::Accumulate => match &old_val {
                                Some(o) => o.accumulate_with(new0),
                                None => new0,
                            },
                        };
                        let changed = match &old_val {
                            Some(o) => !o.value_eq(&written),
                            None => true,
                        };
                        m.insert(
                            rule.state_key.clone(),
                            TrackedValue { value: written.clone_value(), set_at: ts },
                        );
                        if changed {
                            changes.push((rule.state_key.clone(), old_val, Some(written)));
                        }
                    },
                    None => {
                    },
                }
            },
            ExtractionType::Parsed => {
                match extr.get(key) {
                    Some(v) => {
                        let new0 = v.clone_value();
                        let old_val: Option<StateValue> = match m.get(key) {
                            Some(t) => Some(t.value.clone_value()),
                            None => None,
                        };
                        let written = match rule.mode {
                            ExtractionMode::Replace => new0,
                            ExtractionMode::Accumulate => match &old_val {
                                Some(o) => o.accumulate_with(new0),
                                None => new0,
                            },
                        };
                        let changed = match &old_val {
                            Some(o) => !o.value_eq(&written),
                            None => true,
                        };
                        m.insert(
                            rule.state_key.clone(),
                            TrackedValue { value: written.clone_value(), set_at: ts },
                        );
                        if changed {
                            changes.push((rule.state_key.clone(), old_val, Some(written)));
                        }
                    },
                    None => {
                    },
                }
            },
        }
        proof {
            assert(m@ == step.0);
            assert(changes_view(changes@) =~= changes_view(cs0) + step.1);
            assert(changes_view(changes@) + apply_rules(m@, extr@, rules@.skip(i + 1), ts).1
                =~= total.1);
        }
        i = i + 1;
    }
    proof {
        assert(rules@.skip(n as int) =~= Seq::<ExtractionRule>::empty());
        assert(changes_view(changes@) =~= total.1);
    }
    changes
}


/// After auto-extracted JSON fields are written, every field's key is
/// in the source's state, holding the field's (last) value with the
/// line's timestamp.
pub proof fn lemma_json_fields_applied(
    m: Map<Seq<char>, TrackedRep>,
    fields: Seq<(Seq<char>, ValueRep)>,
    ts: Timestamp,
    k: int,
)
    requires
        0 <= k < fields.len(),
        forall|i: int, j: int| k < i < j < fields.len() ==> (#[trigger] fields[i]).0 != (#[trigger] fields[j]).0,
        forall|i: int| k < i < fields.len() ==> (#[trigger] fields[i]).0 != fields[k].0,
    ensures
        apply_fields(m, fields, ts).0.dom().contains(fields[k].0),
        apply_fields(m, fields, ts).0[fields[k].0] == (TrackedRep {
            value: written_value(
                if apply_fields(m, fields.take(k), ts).0.dom().contains(fields[k].0) {
                    Some(apply_fields(m, fields.take(k), ts).0[fields[k].0])
                } else {
                    None
                },
                fields[k].1,
                ExtractionMode::Replace,
            ),
            set_at: ts,
        }),
    decreases fields.len(),
{
    lemma_apply_fields_split(m, fields, ts, k);
    let pre = apply_fields(m, fields.take(k), ts).0;
    let stepm = apply_write(pre, fields[k].0, fields[k].1, ExtractionMode::Replace, ts).0;
    lemma_apply_fields_untouched(stepm, fields.skip(k + 1), ts, fields[k].0);
}

/// Applying fields splits at any position.
proof fn lemma_apply_fields_split(
    m: Map<Seq<char>, TrackedRep>,
    fields: Seq<(Seq<char>, ValueRep)>,
    ts: Timestamp,
    k: int,
)
    requires
        0 <= k < fields.len(),
    ensures
        apply_fields(m, fields, ts).0 == apply_fields(
            apply_write(
                apply_fields(m, fields.take(k), ts).0,
                fields[k].0,
                fields[k].1,
                ExtractionMode::Replace,
                ts,
            ).0,
            fields.skip(k + 1),
            ts,
        ).0,
    decreases k,
{
    if k == 0 {
        assert(fields.take(0) =~= Seq::<(Seq<char>, ValueRep)>::empty());
        assert(fields.skip(1) =~= fields.skip(0int + 1));
    } else {
        assert(fields.skip(1)[k - 1] == fields[k]);
        assert(fields.skip(1).take(k - 1) =~= fields.take(k).skip(1));
        assert(fields.take(k)[0] == fields[0]);
        assert(fields.take(k).skip(1) =~= fields.skip(1).take(k - 1));
        assert(fields.skip(1).skip(k) =~= fields.skip(k + 1));
        lemma_apply_fields_split(
            apply_write(m, fields[0].0, fields[0].1, ExtractionMode::Replace, ts).0,
            fields.skip(1),
            ts,
            k - 1,
        );
        assert(apply_fields(m, fields.take(k), ts).0 == apply_fields(
            apply_write(m, fields[0].0, fields[0].1, ExtractionMode::Replace, ts).0,
            fields.take(k).skip(1),
            ts,
        ).0);
    }
}

/// Fields with other keys leave a key's entry alone.
proof fn lemma_apply_fields_untouched(
    m: Map<Seq<char>, TrackedRep>,
    fields: Seq<(Seq<char>, ValueRep)>,
    ts: Timestamp,
    key: Seq<char>,
)
    requires
        forall|i: int| 0 <= i < fields.len() ==> (#[trigger] fields[i]).0 != key,
    ensures
        apply_fields(m, fields, ts).0.dom().contains(key) == m.dom().contains(key),
        m.dom().contains(key) ==> apply_fields(m, fields, ts).0[key] == m[key],
    decreases fields.len(),
{
    if fields.len() > 0 {
        assert(forall|i: int|
            0 <= i < fields.skip(1).len() ==> (#[trigger] fields.skip(1)[i]).0 != key);
        lemma_apply_fields_untouched(
            apply_write(m, fields[0].0, fields[0].1, ExtractionMode::Replace, ts).0,
            fields.skip(1),
            ts,
            key,
        );
    }
}

/// A copy of all per-source state at one moment, keyed by source
/// name.  Snapshots are value copies: later mutations do not touch
/// them.
#[derive(Debug, Clone)]
pub struct Snapshot {
    entries: Vec<(String, StateMap)>,
}

impl View for Snapshot {
    type V = Map<Seq<char>, Map<Seq<char>, TrackedRep>>;

    open spec fn view(&self) -> Map<Seq<char>, Map<Seq<char>, TrackedRep>> {
        map_of(self.seq_view())
    }
}

impl Snapshot {
    pub closed spec fn seq_view(&self) -> Seq<(Seq<char>, Map<Seq<char>, TrackedRep>)> {
        self.entries@.map_values(|e: (String, StateMap)| (e.0@, e.1@))
    }

    pub open spec fn wf(&self) -> bool {
        keys_distinct(self.seq_view()) && (forall|i: int|
            0 <= i < self.inner_maps().len() ==> (#[trigger] self.inner_maps()[i]).wf())
    }

    pub closed spec fn inner_maps(&self) -> Seq<StateMap> {
        self.entries@.map_values(|e: (String, StateMap)| e.1)
    }

    fn new() -> (r: Snapshot)
        ensures
            r@ == Map::<Seq<char>, Map<Seq<char>, TrackedRep>>::empty(),
            r.wf(),
            r.seq_view().len() == 0,
    {
        let r = Snapshot { entries: Vec::new() };
        proof {
            assert(r.seq_view() =~= Seq::<(Seq<char>, Map<Seq<char>, TrackedRep>)>::empty());
            assert(r.inner_maps() =~= Seq::<StateMap>::empty());
        }
        r
    }

    fn index_of(&self, key: &str) -> (r: Option<usize>)
        ensures
            match r {
                Some(i) => i < self.entries@.len() && self.entries@[i as int].0@ == key@,
                None => forall|i: int|
                    0 <= i < self.entries@.len() ==> (#[trigger] self.entries@[i]).0@ != key@,
            },
    {
        let n = self.entries.len();
        let mut i: usize = 0;
        while i < n
            invariant
                i <= n,
                n == self.entries@.len(),
                forall|j: int| 0 <= j < i ==> (#[trigger] self.entries@[j]).0@ != key@,
            decreases n - i,
        {
            if text::str_eq(self.entries[i].0.as_str(), key) {
                return Some(i);
            }
            i = i + 1;
        }
        None
    }

    /// The state of a source, by name.
    pub fn get<'a>(&'a self, name: &str) -> (r: Option<&'a StateMap>)
        requires
            self.wf(),
        ensures
            match r {
                Some(m) => self@.dom().contains(name@) && self@[name@] == m@ && m.wf(),
                None => !self@.dom().contains(name@),
            },
    {
        match self.index_of(name) {
            Some(i) => {
                proof {
                    lemma_map_of_get(self.seq_view(), i as int);
                    assert(self.inner_maps()[i as int].wf());
                }
                Some(&self.entries[i].1)
            },
            None => {
                proof {
                    lemma_map_of_absent(self.seq_view(), name@);
                }
                None
            },
        }
    }

    fn insert(&mut self, name: String, m: StateMap)
        requires
            old(self).wf(),
            m.wf(),
        ensures
            final(self).wf(),
            final(self)@ == old(self)@.insert(name@, m@),
    {
        let ghost s0 = self.seq_view();
        let ghost im0 = self.inner_maps();
        match self.index_of(name.as_str()) {
            Some(i) => {
                proof {
                    assert(s0[i as int].0 == name@);
                    lemma_map_of_update(s0, i as int, m@);
                }
                let ghost mm = m;
                self.entries.set(i, (name, m));
                proof {
                    assert(self.seq_view() =~= s0.update(i as int, (s0[i as int].0, m@)));
                    assert(self.inner_maps() =~= im0.update(i as int, mm));
                }
            },
            None => {
                proof {
                    lemma_map_of_push(s0, name@, m@);
                }
                let ghost mm = m;
                self.entries.push((name, m));
                proof {
                    assert(self.seq_view() =~= s0.push((name@, m@)));
                    assert(self.inner_maps() =~= im0.push(mm));
                }
            },
        }
    }

    /// A copy with the same contents.
    pub fn clone_snap(&self) -> (r: Snapshot)
        ensures
            r@ == self@,
            self.wf() ==> r.wf(),
    {
        let n = self.entries.len();
        let mut entries: Vec<(String, StateMap)> = Vec::new();
        let mut i: usize = 0;
        while i < n
            invariant
                i <= n,
                n == self.entries@.len(),
                entries@.len() == i,
                forall|j: int|
                    0 <= j < i ==> (#[trigger] entries@[j]).0@ == self.entries@[j].0@ && entries@[
                        j].1@ == self.entries@[j].1@ && entries@[j].1.wf() == self.entries@[j].1.wf(),
            decreases n - i,
        {
            let k = self.entries[i].0.clone();
            let v = self.entries[i].1.clone_map();
            entries.push((k, v));
            i = i + 1;
        }
        let r = Snapshot { entries };
        proof {
            assert(r.seq_view() =~= self.seq_view());
            assert(r.inner_maps().len() == n);
            if self.wf() {
                assert forall|j: int| 0 <= j < n implies (#[trigger] r.inner_maps()[j]).wf() by {
                    assert(r.inner_maps()[j] == r.entries@[j].1);
                    assert(self.inner_maps()[j] == self.entries@[j].1);
                    assert(self.inner_maps()[j].wf());
                }
            }
        }
        r
    }

    /// The number of sources in the snapshot.
    pub fn len(&self) -> (r: usize)
        ensures
            r == self.seq_view().len(),
    {
        self.entries.len()
    }

    /// The entry at a position, for walking the snapshot.
    pub fn entry_at<'a>(&'a self, i: usize) -> (r: &'a (String, StateMap))
        requires
            i < self.seq_view().len(),
        ensures
            (r.0@, r.1@) == self.seq_view()[i as int],
    {
        &self.entries[i]
    }
}

/// Manages per-source state, keyed by source id, with a name index
/// built from the source list at construction.
pub struct StateManager {
    states: Vec<(u64, StateMap)>,
    names: Vec<(u64, String)>,
    ids: Vec<(String, u64)>,
}

/// The name index a source list gives: later sources win on a
/// duplicate id.
pub open spec fn names_of(sources: Seq<Source>) -> Map<u64, Seq<char>>
    decreases sources.len(),
{
    if sources.len() == 0 {
        Map::empty()
    } else {
        names_of(sources.drop_last()).insert(sources.last().id, sources.last().name@)
    }
}

/// The id index a source list gives: later sources win on a duplicate
/// name.
pub open spec fn ids_of(sources: Seq<Source>) -> Map<Seq<char>, u64>
    decreases sources.len(),
{
    if sources.len() == 0 {
        Map::empty()
    } else {
        ids_of(sources.drop_last()).insert(sources.last().name@, sources.last().id)
    }
}

impl StateManager {
    pub closed spec fn states_seq(&self) -> Seq<(u64, Map<Seq<char>, TrackedRep>)> {
        self.states@.map_values(|e: (u64, StateMap)| (e.0, e.1@))
    }

    /// Per-source state, keyed by source id.
    pub open spec fn states_view(&self) -> Map<u64, Map<Seq<char>, TrackedRep>> {
        map_of(self.states_seq())
    }

    /// Source names by id.
    pub closed spec fn names_view(&self) -> Map<u64, Seq<char>> {
        map_of(self.names@.map_values(|e: (u64, String)| (e.0, e.1@)))
    }

    /// Source ids by name.
    pub closed spec fn ids_view(&self) -> Map<Seq<char>, u64> {
        map_of(self.ids@.map_values(|e: (String, u64)| (e.0@, e.1)))
    }

    pub open spec fn wf(&self) -> bool {
        &&& keys_distinct(self.states_seq())
        &&& self.inner_wf()
    }

    pub closed spec fn inner_wf(&self) -> bool {
        &&& keys_distinct(self.names@.map_values(|e: (u64, String)| (e.0, e.1@)))
        &&& keys_distinct(self.ids@.map_values(|e: (String, u64)| (e.0@, e.1)))
        &&& forall|i: int| 0 <= i < self.states@.len() ==> (#[trigger] self.states@[i]).1.wf()
    }

    /// The state of one source: its map when it has been touched, the
    /// empty map otherwise.
    pub open spec fn state_of(&self, source_id: u64) -> Map<Seq<char>, TrackedRep> {
        if self.states_view().dom().contains(source_id) {
            self.states_view()[source_id]
        } else {
            Map::empty()
        }
    }

    /// What a name/key lookup resolves to.
    pub open spec fn lookup_spec(&self, name: Seq<char>, key: Seq<char>) -> Option<ValueRep> {
        lookup_in(self.ids_view(), self.states_view(), name, key)
    }

    /// Builds a manager for a source list: the name index maps every
    /// source's id to its name and back; no state is tracked yet.
    pub fn new(sources: &Vec<Source>) -> (r: StateManager)
        ensures
            r.wf(),
            r.states_view() == Map::<u64, Map<Seq<char>, TrackedRep>>::empty(),
            r.states_seq() == Seq::<(u64, Map<Seq<char>, TrackedRep>)>::empty(),
            r.names_view() == names_of(sources@),
            r.ids_view() == ids_of(sources@),
    {
        let mut names: Vec<(u64, String)> = Vec::new();
        let mut ids: Vec<(String, u64)> = Vec::new();
        let n = sources.len();
        let mut i: usize = 0;
        proof {
            assert(names@.map_values(|e: (u64, String)| (e.0, e.1@)) =~= Seq::<(u64, Seq<char>)>::empty());
            assert(ids@.map_values(|e: (String, u64)| (e.0@, e.1)) =~= Seq::<(Seq<char>, u64)>::empty());
            assert(sources@.take(0) =~= Seq::<Source>::empty());
        }
        while i < n
            invariant
                i <= n,
                n == sources@.len(),
                keys_distinct(names@.map_values(|e: (u64, String)| (e.0, e.1@))),
                keys_distinct(ids@.map_values(|e: (String, u64)| (e.0@, e.1))),
                map_of(names@.map_values(|e: (u64, String)| (e.0, e.1@))) == names_of(
                    sources@.take(i as int),
                ),
                map_of(ids@.map_values(|e: (String, u64)| (e.0@, e.1))) == ids_of(
                    sources@.take(i as int),
                ),
            decreases n - i,
        {
            let src = &sources[i];
            proof {
                assert(sources@.take(i + 1).drop_last() =~= sources@.take(i as int));
                assert(sources@.take(i + 1).last() == sources@[i as int]);
            }
            Self::put_name(&mut names, src.id, src.name.clone());
            Self::put_id(&mut ids, src.name.clone(), src.id);
            i = i + 1;
        }
        proof {
            assert(sources@.take(n as int) =~= sources@);
        }
        let r = StateManager { states: Vec::new(), names, ids };
        proof {
            assert(r.states_seq() =~= Seq::<(u64, Map<Seq<char>, TrackedRep>)>::empty());
        }
        r
    }

    fn put_name(names: &mut Vec<(u64, String)>, id: u64, name: String)
        requires
            keys_distinct(old(names)@.map_values(|e: (u64, String)| (e.0, e.1@))),
        ensures
            keys_distinct(final(names)@.map_values(|e: (u64, String)| (e.0, e.1@))),
            map_of(final(names)@.map_values(|e: (u64, String)| (e.0, e.1@))) == map_of(
                old(names)@.map_values(|e: (u64, String)| (e.0, e.1@)),
            ).insert(id, name@),
    {
        let ghost s0 = names@.map_values(|e: (u64, String)| (e.0, e.1@));
        let n = names.len();
        let mut i: usize = 0;
        while i < n
            invariant
                i <= n,
                n == names@.len(),
                names@ == old(names)@,
                s0 == names@.map_values(|e: (u64, String)| (e.0, e.1@)),
                keys_distinct(s0),
                forall|j: int| 0 <= j < i ==> (#[trigger] names@[j]).0 != id,
            decreases n - i,
        {
            if names[i].0 == id {
                proof {
                    assert(s0[i as int].0 == id);
                    lemma_map_of_update(s0, i as int, name@);
                }
                names.set(i, (id, name));
                proof {
                    assert(names@.map_values(|e: (u64, String)| (e.0, e.1@)) =~= s0.update(
                        i as int,
                        (s0[i as int].0, name@),
                    ));
                }
                return ;
            }
            i = i + 1;
        }
        proof {
            assert(forall|j: int| 0 <= j < s0.len() ==> (#[trigger] s0[j]).0 != id);
            lemma_map_of_push(s0, id, name@);
        }
        names.push((id, name));
        proof {
            assert(names@.map_values(|e: (u64, String)| (e.0, e.1@)) =~= s0.push((id, name@)));
        }
    }

    fn put_id(ids: &mut Vec<(String, u64)>, name: String, id: u64)
        requires
            keys_distinct(old(ids)@.map_values(|e: (String, u64)| (e.0@, e.1))),
        ensures
            keys_distinct(final(ids)@.map_values(|e: (String, u64)| (e.0@, e.1))),
            map_of(final(ids)@.map_values(|e: (String, u64)| (e.0@, e.1))) == map_of(
                old(ids)@.map_values(|e: (String, u64)| (e.0@, e.1)),
            ).insert(name@, id),
    {
        let ghost s0 = ids@.map_values(|e: (String, u64)| (e.0@, e.1));
        let n = ids.len();
        let mut i: usize = 0;
        while i < n
            invariant
                i <= n,
                n == ids@.len(),
                ids@ == old(ids)@,
                s0 == ids@.map_values(|e: (String, u64)| (e.0@, e.1)),
                keys_distinct(s0),
                forall|j: int| 0 <= j < i ==> (#[trigger] ids@[j]).0@ != name@,
            decreases n - i,
        {
            if text::str_eq(ids[i].0.as_str(), name.as_str()) {
                proof {
                    assert(s0[i as int].0 == name@);
                    lemma_map_of_update(s0, i as int, id);
                }
                ids.set(i, (name, id));
                proof {
                    assert(ids@.map_values(|e: (String, u64)| (e.0@, e.1)) =~= s0.update(
                        i as int,
                        (s0[i as int].0, id),
                    ));
                }
                return ;
            }
            i = i + 1;
        }
        proof {
            assert(forall|j: int| 0 <= j < s0.len() ==> (#[trigger] s0[j]).0 != name@);
            lemma_map_of_push(s0, name@, id);
        }
        ids.push((name, id));
        proof {
            assert(ids@.map_values(|e: (String, u64)| (e.0@, e.1)) =~= s0.push((name@, id)));
        }
    }

    /// The name of a source, by id.
    pub fn name_of(&self, id: u64) -> (r: Option<&String>)
        requires
            self.wf(),
        ensures
            match r {
                Some(s) => self.names_view().dom().contains(id) && self.names_view()[id] == s@,
                None => !self.names_view().dom().contains(id),
            },
    {
        let ghost s0 = self.names@.map_values(|e: (u64, String)| (e.0, e.1@));
        let n = self.names.len();
        let mut i: usize = 0;
        while i < n
            invariant
                i <= n,
                n == self.names@.len(),
                self.wf(),
                s0 == self.names@.map_values(|e: (u64, String)| (e.0, e.1@)),
                forall|j: int| 0 <= j < i ==> (#[trigger] self.names@[j]).0 != id,
            decreases n - i,
        {
            if self.names[i].0 == id {
                proof {
                    assert(s0[i as int].0 == id);
                    lemma_map_of_get(s0, i as int);
                }
                return Some(&self.names[i].1);
            }
            i = i + 1;
        }
        proof {
            lemma_map_of_absent(s0, id);
        }
        None
    }

    /// Resolves the value of a source's state key by source name.
    pub fn get_state_by_name<'a>(&'a self, source_name: &str, key: &str) -> (r: Option<
        &'a StateValue,
    >)
        requires
            self.wf(),
        ensures
            match r {
                Some(v) => self.lookup_spec(source_name@, key@) == Some(v@),
                None => self.lookup_spec(source_name@, key@) is None,
            },
    {
        let ghost ids0 = self.ids@.map_values(|e: (String, u64)| (e.0@, e.1));
        let n = self.ids.len();
        let mut i: usize = 0;
        while i < n
            invariant
                i <= n,
                n == self.ids@.len(),
                ids0 == self.ids@.map_values(|e: (String, u64)| (e.0@, e.1)),
                self.wf(),
                forall|j: int| 0 <= j < i ==> (#[trigger] self.ids@[j]).0@ != source_name@,
            decreases n - i,
        {
            if text::str_eq(self.ids[i].0.as_str(), source_name) {
                let id = self.ids[i].1;
                proof {
                    lemma_map_of_get(ids0, i as int);
                }
                return self.state_value_of(id, key);
            }
            i = i + 1;
        }
        proof {
            lemma_map_of_absent(ids0, source_name@);
        }
        None
    }

    fn state_value_of<'a>(&'a self, id: u64, key: &str) -> (r: Option<&'a StateValue>)
        requires
            self.wf(),
        ensures
            match r {
                Some(v) => self.states_view().dom().contains(id) && self.states_view()[
                    id].dom().contains(key@) && self.states_view()[id][key@].value == v@,
                None => !self.states_view().dom().contains(id) || !self.states_view()[
                    id].dom().contains(key@),
            },
    {
        let ghost s0 = self.states_seq();
        let n = self.states.len();
        let mut i: usize = 0;
        while i < n
            invariant
                i <= n,
                n == self.states@.len(),
                s0 == self.states_seq(),
                self.wf(),
                forall|j: int| 0 <= j < i ==> (#[trigger] self.states@[j]).0 != id,
            decreases n - i,
        {
            if self.states[i].0 == id {
                proof {
                    lemma_map_of_get(s0, i as int);
                    assert(self.states@[i as int].1.wf());
                }
                let m = &self.states[i].1;
                return match m.get(key) {
                    Some(t) => Some(&t.value),
                    None => None,
                };
            }
            i = i + 1;
        }
        proof {
            lemma_map_of_absent(s0, id);
        }
        None
    }

    /// Applies one rule's extractions to a source's state, respecting
    /// each extraction's type and mode, and hands back one
    /// `(key, old, new)` diff per actual change, in order.
    pub fn apply_mutations(
        &mut self,
        source_id: u64,
        extractions: &ValueMap,
        rules: &Vec<ExtractionRule>,
        timestamp: Timestamp,
    ) -> (changes: Vec<(String, Option<StateValue>, Option<StateValue>)>)
        requires
            old(self).wf(),
            extractions.wf(),
        ensures
            final(self).wf(),
            final(self).names_view() == old(self).names_view(),
            final(self).ids_view() == old(self).ids_view(),
            final(self).states_view() == old(self).states_view().insert(
                source_id,
                apply_rules(old(self).state_of(source_id), extractions@, rules@, timestamp).0,
            ),
            final(self).states_seq() == seq_put(
                old(self).states_seq(),
                source_id,
                apply_rules(old(self).state_of(source_id), extractions@, rules@, timestamp).0,
            ),
            changes_view(changes@) == apply_rules(
                old(self).state_of(source_id),
                extractions@,
                rules@,
                timestamp,
            ).1,
    {
        let ghost s0 = self.states_seq();
        let n = self.states.len();
        let mut i: usize = 0;
        let mut idx: usize = n;
        while i < n
            invariant_except_break
                i <= n,
                idx == n,
                forall|j: int| 0 <= j < i ==> (#[trigger] self.states@[j]).0 != source_id,
            invariant
                n == self.states@.len(),
                self == old(self),
            ensures
                (idx == n && forall|j: int|
                    0 <= j < n ==> (#[trigger] self.states@[j]).0 != source_id) || (idx < n
                    && self.states@[idx as int].0 == source_id),
            decreases n - i,
        {
            if self.states[i].0 == source_id {
                idx = i;
                break ;
            }
            i = i + 1;
        }
        if idx == n {
            proof {
                assert(forall|j: int| 0 <= j < s0.len() ==> (#[trigger] s0[j]).0 != source_id);
                lemma_map_of_absent(s0, source_id);
                lemma_map_of_push(s0, source_id, Map::<Seq<char>, TrackedRep>::empty());
                lemma_find_idx_absent(s0, source_id);
            }
            let fresh = StateMap::new();
            self.states.push((source_id, fresh));
            proof {
                assert(self.states_seq() =~= s0.push(
                    (source_id, Map::<Seq<char>, TrackedRep>::empty()),
                ));
                assert(old(self).state_of(source_id) =~= Map::<Seq<char>, TrackedRep>::empty());
            }
        }
        let ghost s1 = self.states_seq();
        let ghost pos = if idx < n {
            idx as int
        } else {
            s1.len() - 1
        };
        proof {
            if idx < n {
                assert(s1[pos].0 == source_id);
                lemma_map_of_get(s1, pos);
                lemma_find_idx_at(s0, pos, source_id);
            }
            assert(s1[pos].0 == source_id);
            assert(s1[pos].1 == old(self).state_of(source_id));
        }
        let at: usize = if idx < n {
            idx
        } else {
            self.states.len() - 1
        };
        let mut entry = self.states.remove(at);
        let changes = apply_rules_map(&mut entry.1, extractions, rules, timestamp);
        let ghost newmap = entry.1@;
        self.states.insert(at, entry);
        proof {
            assert(self.states_seq() =~= s1.update(pos, (source_id, newmap)));
            lemma_map_of_update(s1, pos, newmap);
            if idx == n {
                assert(map_of(s1) == map_of(s0).insert(
                    source_id,
                    Map::<Seq<char>, TrackedRep>::empty(),
                ));
                assert(map_of(s1).insert(source_id, newmap) =~= map_of(s0).insert(
                    source_id,
                    newmap,
                ));
                assert(s1.update(pos, (source_id, newmap)) =~= s0.push((source_id, newmap)));
                assert(self.states_seq() == seq_put(s0, source_id, newmap));
            } else {
                assert(s1 == s0);
                assert(self.states_seq() == seq_put(s0, source_id, newmap));
            }
        }
        changes
    }

    /// Snapshots all state, keyed by source name: sources in the
    /// order first touched, a later duplicate name replacing an
    /// earlier one, exactly the map `snapshot_of` describes.
    pub fn snapshot(&self) -> (r: Snapshot)
        requires
            self.wf(),
        ensures
            r.wf(),
            r@ == snapshot_of(self.states_seq(), self.names_view()),
    {
        let mut snap = Snapshot::new();
        let n = self.states.len();
        let mut i: usize = 0;
        proof {
            assert(self.states_seq().take(0) =~= Seq::<(u64, Map<Seq<char>, TrackedRep>)>::empty());
        }
        while i < n
            invariant
                i <= n,
                n == self.states@.len(),
                self.wf(),
                snap.wf(),
                snap@ == snapshot_of(self.states_seq().take(i as int), self.names_view()),
            decreases n - i,
        {
            proof {
                assert(self.states_seq().take(i + 1).drop_last() =~= self.states_seq().take(
                    i as int,
                ));
                assert(self.states_seq().take(i + 1).last() == self.states_seq()[i as int]);
                assert(self.states@[i as int].1.wf());
            }
            let id = self.states[i].0;
            match self.name_of(id) {
                Some(name) => {
                    let copy = self.states[i].1.clone_map();
                    snap.insert(name.clone(), copy);
                },
                None => {
                },
            }
            i = i + 1;
        }
        proof {
            assert(self.states_seq().take(n as int) =~= self.states_seq());
        }
        snap
    }
}

proof fn lemma_find_idx_at(states: Seq<(u64, Map<Seq<char>, TrackedRep>)>, k: int, id: u64)
    requires
        0 <= k < states.len(),
        states[k].0 == id,
        forall|j: int| 0 <= j < k ==> (#[trigger] states[j]).0 != id,
    ensures
        find_state_idx(states, id) == Some(k),
    decreases k,
{
    if k > 0 {
        assert(forall|j: int| 0 <= j < k - 1 ==> states.skip(1)[j] == states[j + 1]);
        assert(states.skip(1)[k - 1] == states[k]);
        lemma_find_idx_at(states.skip(1), k - 1, id);
    }
}

proof fn lemma_find_idx_absent(states: Seq<(u64, Map<Seq<char>, TrackedRep>)>, id: u64)
    requires
        forall|j: int| 0 <= j < states.len() ==> (#[trigger] states[j]).0 != id,
    ensures
        find_state_idx(states, id) is None,
    decreases states.len(),
{
    if states.len() > 0 {
        assert(forall|j: int| 0 <= j < states.len() - 1 ==> states.skip(1)[j] == states[j + 1]);
        lemma_find_idx_absent(states.skip(1), id);
    }
}

/// What a name/key lookup resolves to over an id index and a state
/// table.
pub open spec fn lookup_in(
    ids: Map<Seq<char>, u64>,
    states: Map<u64, Map<Seq<char>, TrackedRep>>,
    name: Seq<char>,
    key: Seq<char>,
) -> Option<ValueRep> {
    if ids.dom().contains(name) {
        let id = ids[name];
        if states.dom().contains(id) && states[id].dom().contains(key) {
            Some(states[id][key].value)
        } else {
            None
        }
    } else {
        None
    }
}

/// The first position of a source id in a state table.
pub open spec fn find_state_idx(states: Seq<(u64, Map<Seq<char>, TrackedRep>)>, id: u64) -> Option<
    int,
>
    decreases states.len(),
{
    if states.len() == 0 {
        None
    } else if states[0].0 == id {
        Some(0int)
    } else {
        match find_state_idx(states.skip(1), id) {
            Some(i) => Some(i + 1),
            None => None,
        }
    }
}

/// A state table with one source's map replaced (or appended when the
/// id is new).
pub open spec fn seq_put(
    states: Seq<(u64, Map<Seq<char>, TrackedRep>)>,
    id: u64,
    m: Map<Seq<char>, TrackedRep>,
) -> Seq<(u64, Map<Seq<char>, TrackedRep>)> {
    match find_state_idx(states, id) {
        Some(i) => states.update(i, (id, m)),
        None => states.push((id, m)),
    }
}

/// The state of one source in a state table: its map, or empty.
pub open spec fn state_in(states: Seq<(u64, Map<Seq<char>, TrackedRep>)>, id: u64) -> Map<
    Seq<char>,
    TrackedRep,
> {
    if map_of(states).dom().contains(id) {
        map_of(states)[id]
    } else {
        Map::empty()
    }
}

/// The snapshot a state table and name index give: states in order,
/// each under its source's name; a state whose id has no name is left
/// out.
pub open spec fn snapshot_of(
    states: Seq<(u64, Map<Seq<char>, TrackedRep>)>,
    names: Map<u64, Seq<char>>,
) -> Map<Seq<char>, Map<Seq<char>, TrackedRep>>
    decreases states.len(),
{
    if states.len() == 0 {
        Map::empty()
    } else {
        let prev = snapshot_of(states.drop_last(), names);
        if names.dom().contains(states.last().0) {
            prev.insert(names[states.last().0], states.last().1)
        } else {
            prev
        }
    }
}


/// The effect of writing auto-extracted JSON fields, in order: each
/// field replaces the key's value with the line's timestamp, emitting
/// a diff exactly when the value changed.
pub open spec fn apply_fields(
    m: Map<Seq<char>, TrackedRep>,
    fields: Seq<(Seq<char>, ValueRep)>,
    ts: Timestamp,
) -> (Map<Seq<char>, TrackedRep>, Seq<ChangeRep>)
    decreases fields.len(),
{
    if fields.len() == 0 {
        (m, Seq::empty())
    } else {
        let step = apply_write(m, fields[0].0, fields[0].1, ExtractionMode::Replace, ts);
        let rest = apply_fields(step.0, fields.skip(1), ts);
        (rest.0, step.1 + rest.1)
    }
}

impl StateManager {
    /// Writes auto-extracted JSON fields into a source's state
    /// (`apply_fields`), handing back one diff per actual change.
    pub fn apply_json(
        &mut self,
        source_id: u64,
        fields: &Vec<(String, StateValue)>,
        timestamp: Timestamp,
    ) -> (changes: Vec<(String, Option<StateValue>, Option<StateValue>)>)
        requires
            old(self).wf(),
        ensures
            final(self).wf(),
            final(self).names_view() == old(self).names_view(),
            final(self).ids_view() == old(self).ids_view(),
            final(self).states_view() == old(self).states_view().insert(
                source_id,
                apply_fields(old(self).state_of(source_id), fields_view(fields@), timestamp).0,
            ),
            final(self).states_seq() == seq_put(
                old(self).states_seq(),
                source_id,
                apply_fields(old(self).state_of(source_id), fields_view(fields@), timestamp).0,
            ),
            changes_view(changes@) == apply_fields(
                old(self).state_of(source_id),
                fields_view(fields@),
                timestamp,
            ).1,
    {
        let ghost s0 = self.states_seq();
        let n = self.states.len();
        let mut i: usize = 0;
        let mut idx: usize = n;
        while i < n
            invariant_except_break
                i <= n,
                idx == n,
                forall|j: int| 0 <= j < i ==> (#[trigger] self.states@[j]).0 != source_id,
            invariant
                n == self.states@.len(),
                self == old(self),
            ensures
                (idx == n && forall|j: int|
                    0 <= j < n ==> (#[trigger] self.states@[j]).0 != source_id) || (idx < n
                    && self.states@[idx as int].0 == source_id),
            decreases n - i,
        {
            if self.states[i].0 == source_id {
                idx = i;
                break ;
            }
            i = i + 1;
        }
        if idx == n {
            proof {
                assert(forall|j: int| 0 <= j < s0.len() ==> (#[trigger] s0[j]).0 != source_id);
                lemma_map_of_absent(s0, source_id);
                lemma_map_of_push(s0, source_id, Map::<Seq<char>, TrackedRep>::empty());
                lemma_find_idx_absent(s0, source_id);
            }
            let fresh = StateMap::new();
            self.states.push((source_id, fresh));
            proof {
                assert(self.states_seq() =~= s0.push(
                    (source_id, Map::<Seq<char>, TrackedRep>::empty()),
                ));
                assert(old(self).state_of(source_id) =~= Map::<Seq<char>, TrackedRep>::empty());
            }
        }
        let ghost s1 = self.states_seq();
        let ghost pos = if idx < n {
            idx as int
        } else {
            s1.len() - 1
        };
        proof {
            if idx < n {
                assert(s1[pos].0 == source_id);
                lemma_map_of_get(s1, pos);
                lemma_find_idx_at(s0, pos, source_id);
            }
            assert(s1[pos].0 == source_id);
            assert(s1[pos].1 == old(self).state_of(source_id));
        }
        let at: usize = if idx < n {
            idx
        } else {
            self.states.len() - 1
        };
        let mut entry = self.states.remove(at);
        let changes = apply_fields_map(&mut entry.1, fields, timestamp);
        let ghost newmap = entry.1@;
        self.states.insert(at, entry);
        proof {
            assert(self.states_seq() =~= s1.update(pos, (source_id, newmap)));
            lemma_map_of_update(s1, pos, newmap);
            if idx == n {
                assert(map_of(s1) == map_of(s0).insert(
                    source_id,
                    Map::<Seq<char>, TrackedRep>::empty(),
                ));
                assert(map_of(s1).insert(source_id, newmap) =~= map_of(s0).insert(
                    source_id,
                    newmap,
                ));
                assert(s1.update(pos, (source_id, newmap)) =~= s0.push((source_id, newmap)));
                assert(self.states_seq() == seq_put(s0, source_id, newmap));
            } else {
                assert(s1 == s0);
                assert(self.states_seq() == seq_put(s0, source_id, newmap));
            }
        }
        changes
    }
}

/// The models of a JSON field list.
pub open spec fn fields_view(fields: Seq<(String, StateValue)>) -> Seq<(Seq<char>, ValueRep)> {
    fields.map_values(|f: (String, StateValue)| (f.0@, f.1@))
}

/// Writes the fields into one state map, in order (`apply_fields`).
fn apply_fields_map(m: &mut StateMap, fields: &Vec<(String, StateValue)>, ts: Timestamp) -> (changes:
    Vec<(String, Option<StateValue>, Option<StateValue>)>)
    requires
        old(m).wf(),
    ensures
        final(m).wf(),
        final(m)@ == apply_fields(old(m)@, fields_view(fields@), ts).0,
        changes_view(changes@) == apply_fields(old(m)@, fields_view(fields@), ts).1,
{
    let ghost m0 = m@;
    let ghost fv = fields_view(fields@);
    let ghost total = apply_fields(m0, fv, ts);
    let mut changes: Vec<(String, Option<StateValue>, Option<StateValue>)> = Vec::new();
    let n = fields.len();
    let mut i: usize = 0;
    proof {
        assert(fv.skip(0) =~= fv);
        assert(changes_view(changes@) =~= Seq::<ChangeRep>::empty());
    }
    while i < n
        invariant
            i <= n,
            n == fields@.len(),
            m.wf(),
            fv == fields_view(fields@),
            total == apply_fields(m0, fv, ts),
            apply_fields(m@, fv.skip(i as int), ts).0 == total.0,
            changes_view(changes@) + apply_fields(m@, fv.skip(i as int), ts).1 == total.1,
        decreases n - i,
    {
        let ghost mv = m@;
        proof {
            assert(fv.skip(i as int)[0] == fv[i as int]);
            assert(fv.skip(i as int).skip(1) =~= fv.skip(i + 1));
        }
        let ghost step = apply_write(mv, fv[i as int].0, fv[i as int].1, ExtractionMode::Replace, ts);
        let ghost cs0 = changes@;
        let key = &fields[i].0;
        let sv = &fields[i].1;
        let old_val: Option<StateValue> = match m.get(key.as_str()) {
            Some(t) => Some(t.value.clone_value()),
            None => None,
        };
        let written = sv.clone_value();
        let changed = match &old_val {
            Some(o) => !o.value_eq(&written),
            None => true,
        };
        m.insert(key.clone(), TrackedValue { value: written.clone_value(), set_at: ts });
        if changed {
            changes.push((key.clone(), old_val, Some(written)));
        }
        proof {
            assert(m@ == step.0);
            assert(changes_view(changes@) =~= changes_view(cs0) + step.1);
            assert(changes_view(changes@) + apply_fields(m@, fv.skip(i + 1), ts).1 =~= total.1);
        }
        i = i + 1;
    }
    proof {
        assert(fv.skip(n as int) =~= Seq::<(Seq<char>, ValueRep)>::empty());
        assert(changes_view(changes@) =~= total.1);
    }
    changes
}

} // verus!



