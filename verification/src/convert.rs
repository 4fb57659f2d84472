//! String names of the configuration enums, as stored and parsed at
//! the persistence boundary.

use vstd::prelude::*;

use crate::model::{ExtractionMode, ExtractionType, MatchMode, Operator};
use crate::text::str_eq;

verus! {

/// Parses a match mode name (`any` / `all`).
pub fn parse_match_mode(s: &str) -> (r: Result<MatchMode, String>)
    ensures
        s@ == "any"@ ==> (r matches Ok(m) && m is Any),
        s@ == "all"@ ==> (r matches Ok(m) && m is All),
        s@ != "any"@ && s@ != "all"@ ==> r is Err,
{
    proof {
        reveal_strlit("any");
        reveal_strlit("all");
        assert("any"@.len() == 3 && "all"@.len() == 3);
        assert("any"@[1] != "all"@[1]);
    }
    if str_eq(s, "any") {
        Ok(MatchMode::Any)
    } else if str_eq(s, "all") {
        Ok(MatchMode::All)
    } else {
        let mut m = String::new();
        m.append("unknown match_mode: ");
        m.append(s);
        Err(m)
    }
}

/// The stored name of a match mode.
pub fn match_mode_to_str(m: &MatchMode) -> (r: &'static str)
    ensures
        m is Any ==> r@ == "any"@,
        m is All ==> r@ == "all"@,
{
    match m {
        MatchMode::Any => "any",
        MatchMode::All => "all",
    }
}

/// Parses an extraction type name (`parsed` / `static` / `clear`).
pub fn parse_extraction_type(s: &str) -> (r: Result<ExtractionType, String>)
    ensures
        s@ == "parsed"@ ==> (r matches Ok(t) && t is Parsed),
        s@ == "static"@ ==> (r matches Ok(t) && t is Static),
        s@ == "clear"@ ==> (r matches Ok(t) && t is Clear),
        s@ != "parsed"@ && s@ != "static"@ && s@ != "clear"@ ==> r is Err,
{
    proof {
        reveal_strlit("parsed");
        reveal_strlit("static");
        reveal_strlit("clear");
        assert("parsed"@.len() == 6 && "static"@.len() == 6 && "clear"@.len() == 5);
        assert("parsed"@[0] != "static"@[0]);
    }
    if str_eq(s, "parsed") {
        Ok(ExtractionType::Parsed)
    } else if str_eq(s, "static") {
        Ok(ExtractionType::Static)
    } else if str_eq(s, "clear") {
        Ok(ExtractionType::Clear)
    } else {
        let mut m = String::new();
        m.append("unknown extraction_type: ");
        m.append(s);
        Err(m)
    }
}

/// The stored name of an extraction type.
pub fn extraction_type_to_str(t: &ExtractionType) -> (r: &'static str)
    ensures
        t is Parsed ==> r@ == "parsed"@,
        t is Static ==> r@ == "static"@,
        t is Clear ==> r@ == "clear"@,
{
    match t {
        ExtractionType::Parsed => "parsed",
        ExtractionType::Static => "static",
        ExtractionType::Clear => "clear",
    }
}

/// Parses an extraction mode name (`replace` / `accumulate`).
pub fn parse_extraction_mode(s: &str) -> (r: Result<ExtractionMode, String>)
    ensures
        s@ == "replace"@ ==> (r matches Ok(m) && m is Replace),
        s@ == "accumulate"@ ==> (r matches Ok(m) && m is Accumulate),
        s@ != "replace"@ && s@ != "accumulate"@ ==> r is Err,
{
    proof {
        reveal_strlit("replace");
        reveal_strlit("accumulate");
        assert("replace"@.len() == 7 && "accumulate"@.len() == 10);
    }
    if str_eq(s, "replace") {
        Ok(ExtractionMode::Replace)
    } else if str_eq(s, "accumulate") {
        Ok(ExtractionMode::Accumulate)
    } else {
        let mut m = String::new();
        m.append("unknown extraction_mode: ");
        m.append(s);
        Err(m)
    }
}

/// The stored name of an extraction mode.
pub fn extraction_mode_to_str(m: &ExtractionMode) -> (r: &'static str)
    ensures
        m is Replace ==> r@ == "replace"@,
        m is Accumulate ==> r@ == "accumulate"@,
{
    match m {
        ExtractionMode::Replace => "replace",
        ExtractionMode::Accumulate => "accumulate",
    }
}

/// Parses an operator name.
pub fn parse_operator(s: &str) -> (r: Result<Operator, String>)
    ensures
        s@ == "eq"@ ==> (r matches Ok(o) && o is Eq),
        s@ == "neq"@ ==> (r matches Ok(o) && o is Neq),
        s@ == "gt"@ ==> (r matches Ok(o) && o is Gt),
        s@ == "lt"@ ==> (r matches Ok(o) && o is Lt),
        s@ == "gte"@ ==> (r matches Ok(o) && o is Gte),
        s@ == "lte"@ ==> (r matches Ok(o) && o is Lte),
        s@ == "contains"@ ==> (r matches Ok(o) && o is Contains),
        s@ == "exists"@ ==> (r matches Ok(o) && o is Exists),
        s@ != "eq"@ && s@ != "neq"@ && s@ != "gt"@ && s@ != "lt"@ && s@ != "gte"@ && s@ != "lte"@
            && s@ != "contains"@ && s@ != "exists"@ ==> r is Err,
{
    proof {
        reveal_strlit("eq");
        reveal_strlit("neq");
        reveal_strlit("gt");
        reveal_strlit("lt");
        reveal_strlit("gte");
        reveal_strlit("lte");
        reveal_strlit("contains");
        reveal_strlit("exists");
        assert("eq"@.len() == 2 && "neq"@.len() == 3 && "gt"@.len() == 2 && "lt"@.len() == 2);
        assert("gte"@.len() == 3 && "lte"@.len() == 3 && "contains"@.len() == 8 && "exists"@.len()
            == 6);
        assert("eq"@[0] != "gt"@[0] && "eq"@[0] != "lt"@[0] && "gt"@[0] != "lt"@[0]);
        assert("neq"@[0] != "gte"@[0] && "neq"@[0] != "lte"@[0] && "gte"@[0] != "lte"@[0]);
    }
    if str_eq(s, "eq") {
        Ok(Operator::Eq)
    } else if str_eq(s, "neq") {
        Ok(Operator::Neq)
    } else if str_eq(s, "gt") {
        Ok(Operator::Gt)
    } else if str_eq(s, "lt") {
        Ok(Operator::Lt)
    } else if str_eq(s, "gte") {
        Ok(Operator::Gte)
    } else if str_eq(s, "lte") {
        Ok(Operator::Lte)
    } else if str_eq(s, "contains") {
        Ok(Operator::Contains)
    } else if str_eq(s, "exists") {
        Ok(Operator::Exists)
    } else {
        let mut m = String::new();
        m.append("unknown operator: ");
        m.append(s);
        Err(m)
    }
}

/// The stored name of an operator.
pub fn operator_to_str(o: &Operator) -> (r: &'static str)
    ensures
        o is Eq ==> r@ == "eq"@,
        o is Neq ==> r@ == "neq"@,
        o is Gt ==> r@ == "gt"@,
        o is Lt ==> r@ == "lt"@,
        o is Gte ==> r@ == "gte"@,
        o is Lte ==> r@ == "lte"@,
        o is Contains ==> r@ == "contains"@,
        o is Exists ==> r@ == "exists"@,
{
    match o {
        Operator::Eq => "eq",
        Operator::Neq => "neq",
        Operator::Gt => "gt",
        Operator::Lt => "lt",
        Operator::Gte => "gte",
        Operator::Lte => "lte",
        Operator::Contains => "contains",
        Operator::Exists => "exists",
    }
}

} // verus!
