//! The data model: state values with their comparison and
//! accumulation semantics, configuration entities, log lines, and the
//! result records the analysis emits.

use vstd::prelude::*;

use crate::numeric;
use crate::numeric::{float_cmp, float_of_int, float_sum, num_rep};
use crate::text;
use crate::times::Timestamp;

verus! {

/// Value types for state and predicates.  Floats are carried as
/// opaque `serde_json::Number` values; see `numeric`.
#[derive(Debug, Clone, PartialEq)]
pub enum StateValue {
    String(String),
    Integer(i64),
    Float(serde_json::Number),
    Bool(bool),
}

/// The mathematical model of a `StateValue`: strings as character
/// sequences, floats by their canonical JSON rendering.
pub enum ValueRep {
    Str(Seq<char>),
    Int(i64),
    Flt(Seq<char>),
    Boo(bool),
}

impl View for StateValue {
    type V = ValueRep;

    open spec fn view(&self) -> ValueRep {
        match self {
            StateValue::String(s) => ValueRep::Str(s@),
            StateValue::Integer(i) => ValueRep::Int(*i),
            StateValue::Float(n) => ValueRep::Flt(num_rep(*n)),
            StateValue::Bool(b) => ValueRep::Boo(*b),
        }
    }
}

/// Value equality: within-type equality, with Integer and Float
/// cross-comparing by promotion to double; every other cross-type
/// pair is unequal.
pub open spec fn val_eq(a: ValueRep, b: ValueRep) -> bool {
    match (a, b) {
        (ValueRep::Str(x), ValueRep::Str(y)) => x == y,
        (ValueRep::Int(x), ValueRep::Int(y)) => x == y,
        (ValueRep::Flt(x), ValueRep::Flt(y)) => float_cmp(x, y) == 0,
        (ValueRep::Boo(x), ValueRep::Boo(y)) => x == y,
        (ValueRep::Int(x), ValueRep::Flt(y)) => float_cmp(float_of_int(x), y) == 0,
        (ValueRep::Flt(x), ValueRep::Int(y)) => float_cmp(x, float_of_int(y)) == 0,
        _ => false,
    }
}

/// The sign of an integer: -1, 0 or 1.
pub open spec fn sign(i: int) -> int {
    if i < 0 {
        -1
    } else if i == 0 {
        0
    } else {
        1
    }
}

/// Value ordering: negative, zero or positive when defined, `None`
/// when the two types do not compare.  Strings order
/// lexicographically, booleans with `false` below `true`, and Integer
/// and Float cross-compare by promotion to double.
pub open spec fn val_cmp(a: ValueRep, b: ValueRep) -> Option<int> {
    match (a, b) {
        (ValueRep::Str(x), ValueRep::Str(y)) => Some(sign(text::lex_cmp_spec(x, y))),
        (ValueRep::Int(x), ValueRep::Int(y)) => Some(
            if x < y {
                -1int
            } else if x == y {
                0int
            } else {
                1int
            },
        ),
        (ValueRep::Flt(x), ValueRep::Flt(y)) => Some(sign(float_cmp(x, y))),
        (ValueRep::Boo(x), ValueRep::Boo(y)) => Some(
            if x == y {
                0int
            } else if y {
                -1int
            } else {
                1int
            },
        ),
        (ValueRep::Int(x), ValueRep::Flt(y)) => Some(sign(float_cmp(float_of_int(x), y))),
        (ValueRep::Flt(x), ValueRep::Int(y)) => Some(sign(float_cmp(x, float_of_int(y)))),
        _ => None,
    }
}

/// What accumulating `b` into an existing value `a` yields:
/// comma-joined strings, wrapping integer sums, double sums for
/// float/float and the integer/float cross pairs, and plain
/// replacement for every other combination.  A double sum that is not
/// finite also falls back to replacement.
pub open spec fn val_accumulate(a: ValueRep, b: ValueRep) -> ValueRep {
    match (a, b) {
        (ValueRep::Str(x), ValueRep::Str(y)) => ValueRep::Str(x + seq![','] + y),
        (ValueRep::Int(x), ValueRep::Int(y)) => ValueRep::Int(
            vstd::wrapping::i64_specs::wrapping_add(x, y),
        ),
        (ValueRep::Flt(x), ValueRep::Flt(y)) => match float_sum(x, y) {
            Some(s) => ValueRep::Flt(s),
            None => b,
        },
        (ValueRep::Int(x), ValueRep::Flt(y)) => match float_sum(float_of_int(x), y) {
            Some(s) => ValueRep::Flt(s),
            None => b,
        },
        (ValueRep::Flt(x), ValueRep::Int(y)) => match float_sum(x, float_of_int(y)) {
            Some(s) => ValueRep::Flt(s),
            None => b,
        },
        _ => b,
    }
}

impl StateValue {
    /// Value equality with Integer/Float promotion (`val_eq`).
    pub fn value_eq(&self, other: &StateValue) -> (r: bool)
        ensures
            r == val_eq(self@, other@),
    {
        match (self, other) {
            (StateValue::String(x), StateValue::String(y)) => *x == *y,
            (StateValue::Integer(x), StateValue::Integer(y)) => *x == *y,
            (StateValue::Float(x), StateValue::Float(y)) => numeric::num_cmp(x, y) == 0,
            (StateValue::Bool(x), StateValue::Bool(y)) => *x == *y,
            (StateValue::Integer(x), StateValue::Float(y)) => {
                let xn = numeric::num_from_i64(*x);
                numeric::num_cmp(&xn, y) == 0
            },
            (StateValue::Float(x), StateValue::Integer(y)) => {
                let yn = numeric::num_from_i64(*y);
                numeric::num_cmp(x, &yn) == 0
            },
            _ => false,
        }
    }

    /// Value ordering (`val_cmp`), as an optional sign.
    pub fn value_cmp(&self, other: &StateValue) -> (r: Option<i8>)
        ensures
            match r {
                Some(c) => val_cmp(self@, other@) == Some(c as int) && -1 <= c <= 1,
                None => val_cmp(self@, other@) is None,
            },
    {
        match (self, other) {
            (StateValue::String(x), StateValue::String(y)) => Some(
                text::lex_cmp(x.as_str(), y.as_str()),
            ),
            (StateValue::Integer(x), StateValue::Integer(y)) => Some(
                if *x < *y {
                    -1
                } else if *x == *y {
                    0
                } else {
                    1
                },
            ),
            (StateValue::Float(x), StateValue::Float(y)) => Some(numeric::num_cmp(x, y)),
            (StateValue::Bool(x), StateValue::Bool(y)) => Some(
                if *x == *y {
                    0
                } else if *y {
                    -1
                } else {
                    1
                },
            ),
            (StateValue::Integer(x), StateValue::Float(y)) => {
                let xn = numeric::num_from_i64(*x);
                Some(numeric::num_cmp(&xn, y))
            },
            (StateValue::Float(x), StateValue::Integer(y)) => {
                let yn = numeric::num_from_i64(*y);
                Some(numeric::num_cmp(x, &yn))
            },
            _ => None,
        }
    }

    /// A copy with the same value.
    pub fn clone_value(&self) -> (r: StateValue)
        ensures
            r@ == self@,
    {
        match self {
            StateValue::String(s) => StateValue::String(s.clone()),
            StateValue::Integer(i) => StateValue::Integer(*i),
            StateValue::Float(n) => StateValue::Float(n.clone()),
            StateValue::Bool(b) => StateValue::Bool(*b),
        }
    }

    /// Accumulates `new` into `self` (`val_accumulate`).
    pub fn accumulate_with(&self, new: StateValue) -> (r: StateValue)
        ensures
            r@ == val_accumulate(self@, new@),
    {
        match (self, &new) {
            (StateValue::String(x), StateValue::String(y)) => {
                let mut joined = x.clone();
                joined.append(",");
                joined.append(y.as_str());
                proof {
                    reveal_strlit(",");
                    assert(joined@ =~= x@ + seq![','] + y@);
                }
                StateValue::String(joined)
            },
            (StateValue::Integer(x), StateValue::Integer(y)) => StateValue::Integer(
                x.wrapping_add(*y),
            ),
            (StateValue::Float(x), StateValue::Float(y)) => {
                match numeric::num_add(x, y) {
                    Some(s) => StateValue::Float(s),
                    None => new,
                }
            },
            (StateValue::Integer(x), StateValue::Float(y)) => {
                let xn = numeric::num_from_i64(*x);
                match numeric::num_add(&xn, y) {
                    Some(s) => StateValue::Float(s),
                    None => new,
                }
            },
            (StateValue::Float(x), StateValue::Integer(y)) => {
                let yn = numeric::num_from_i64(*y);
                match numeric::num_add(x, &yn) {
                    Some(s) => StateValue::Float(s),
                    None => new,
                }
            },
            _ => new,
        }
    }
}

/// A state value paired with the timestamp of the log line that last
/// set it.
#[derive(Debug, Clone, PartialEq)]
pub struct TrackedValue {
    pub value: StateValue,
    pub set_at: Timestamp,
}

/// The model of a `TrackedValue`.
pub struct TrackedRep {
    pub value: ValueRep,
    pub set_at: Timestamp,
}

impl View for TrackedValue {
    type V = TrackedRep;

    open spec fn view(&self) -> TrackedRep {
        TrackedRep { value: self.value@, set_at: self.set_at }
    }
}

impl TrackedValue {
    /// A copy with the same value and timestamp.
    pub fn clone_tracked(&self) -> (r: TrackedValue)
        ensures
            r@ == self@,
    {
        TrackedValue { value: self.value.clone_value(), set_at: self.set_at }
    }
}

/// Errors an analysis run can end with.
#[derive(Debug, Clone, PartialEq)]
pub enum AnalysisError {
    InvalidRegex(String),
    InvalidTimestampFormat(String),
    FileNotFound(String),
    ParseError(String),
}

/// What `AnalysisError::message` renders: a kind prefix and the
/// carried context.
pub open spec fn err_display(e: AnalysisError) -> Seq<char> {
    match e {
        AnalysisError::InvalidRegex(s) => "invalid regex: "@ + s@,
        AnalysisError::InvalidTimestampFormat(s) => "invalid timestamp format: "@ + s@,
        AnalysisError::FileNotFound(s) => "file not found: "@ + s@,
        AnalysisError::ParseError(s) => "parse error: "@ + s@,
    }
}

impl AnalysisError {
    /// A copy of the error.
    pub fn clone_err(&self) -> (r: AnalysisError)
        ensures
            r == *self,
    {
        match self {
            AnalysisError::InvalidRegex(s) => AnalysisError::InvalidRegex(s.clone()),
            AnalysisError::InvalidTimestampFormat(s) => AnalysisError::InvalidTimestampFormat(
                s.clone(),
            ),
            AnalysisError::FileNotFound(s) => AnalysisError::FileNotFound(s.clone()),
            AnalysisError::ParseError(s) => AnalysisError::ParseError(s.clone()),
        }
    }

    /// The error as one human-readable line.
    pub fn message(&self) -> (r: String)
        ensures
            r@ == err_display(*self),
    {
        match self {
            AnalysisError::InvalidRegex(s) => {
                let mut m = String::new();
                m.append("invalid regex: ");
                m.append(s.as_str());
                proof {
                    assert(m@ =~= "invalid regex: "@ + s@);
                }
                m
            },
            AnalysisError::InvalidTimestampFormat(s) => {
                let mut m = String::new();
                m.append("invalid timestamp format: ");
                m.append(s.as_str());
                proof {
                    assert(m@ =~= "invalid timestamp format: "@ + s@);
                }
                m
            },
            AnalysisError::FileNotFound(s) => {
                let mut m = String::new();
                m.append("file not found: ");
                m.append(s.as_str());
                proof {
                    assert(m@ =~= "file not found: "@ + s@);
                }
                m
            },
            AnalysisError::ParseError(s) => {
                let mut m = String::new();
                m.append("parse error: ");
                m.append(s.as_str());
                proof {
                    assert(m@ =~= "parse error: "@ + s@);
                }
                m
            },
        }
    }
}

/// Timestamp template: how to parse timestamps out of log lines.
#[derive(Debug, Clone)]
pub struct TimestampTemplate {
    pub id: u64,
    pub name: String,
    pub format: String,
    pub extraction_regex: Option<String>,
    pub default_year: Option<i32>,
}

/// Source template: how to read a log source.
#[derive(Debug, Clone)]
pub struct SourceTemplate {
    pub id: u64,
    pub name: String,
    pub timestamp_template_id: u64,
    pub line_delimiter: String,
    pub content_regex: Option<String>,
    pub continuation_regex: Option<String>,
    pub json_timestamp_field: Option<String>,
}

/// A log source.  The file at `file_path` is read by the caller; the
/// engine works on the text.
#[derive(Debug, Clone)]
pub struct Source {
    pub id: u64,
    pub name: String,
    pub template_id: u64,
    pub file_path: String,
}

/// A parsed log line.  `raw` is the (possibly merged multi-line) text
/// as read; `content` is what rules match against.
#[derive(Debug, Clone)]
pub struct LogLine {
    pub timestamp: Timestamp,
    pub source_id: u64,
    pub raw: String,
    pub content: String,
}

/// Match modes for log rules.
#[derive(Debug, Clone)]
pub enum MatchMode {
    Any,
    All,
}

/// A regex to test against log line content.
#[derive(Debug, Clone)]
pub struct MatchRule {
    pub id: u64,
    pub pattern: String,
}

/// Extraction types.
#[derive(Debug, Clone)]
pub enum ExtractionType {
    Parsed,
    Static,
    Clear,
}

/// Extraction modes.
#[derive(Debug, Clone)]
pub enum ExtractionMode {
    Replace,
    Accumulate,
}

/// One state extraction of a rule.
#[derive(Debug, Clone)]
pub struct ExtractionRule {
    pub id: u64,
    pub extraction_type: ExtractionType,
    pub state_key: String,
    pub pattern: Option<String>,
    pub static_value: Option<String>,
    pub mode: ExtractionMode,
}

/// A log rule: match rules plus extraction rules.
#[derive(Debug, Clone)]
pub struct LogRule {
    pub id: u64,
    pub name: String,
    pub match_mode: MatchMode,
    pub match_rules: Vec<MatchRule>,
    pub extraction_rules: Vec<ExtractionRule>,
}

/// Binds a set of rules to all sources of a template.
#[derive(Debug, Clone)]
pub struct Ruleset {
    pub id: u64,
    pub name: String,
    pub template_id: u64,
    pub rule_ids: Vec<u64>,
}

/// Predicate operators.
#[derive(Debug, Clone)]
pub enum Operator {
    Eq,
    Neq,
    Gt,
    Lt,
    Gte,
    Lte,
    Contains,
    Exists,
}

/// A predicate operand: a literal value or a reference to another
/// source's state.
#[derive(Debug, Clone)]
pub enum Operand {
    Literal(StateValue),
    StateRef { source_name: String, state_key: String },
}

/// A single predicate of a pattern.
#[derive(Debug, Clone)]
pub struct PatternPredicate {
    pub source_name: String,
    pub state_key: String,
    pub operator: Operator,
    pub operand: Operand,
}

/// An ordered sequence of predicates.
#[derive(Debug, Clone)]
pub struct Pattern {
    pub id: u64,
    pub name: String,
    pub predicates: Vec<PatternPredicate>,
}

} // verus!
