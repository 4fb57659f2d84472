//! Options for exporting analysis results, and the small verified
//! helpers the export surface uses.  Rendering to JSON or CSV is the
//! caller's concern.

use vstd::prelude::*;

use crate::text;

verus! {

/// Which sections a JSON export includes.
#[derive(Debug, Clone)]
pub struct ExportOptions {
    pub rule_matches: bool,
    pub pattern_matches: bool,
    pub state_changes: bool,
}

impl Default for ExportOptions {
    /// Every section included.
    fn default() -> (r: ExportOptions)
        ensures
            r.rule_matches && r.pattern_matches && r.state_changes,
    {
        ExportOptions { rule_matches: true, pattern_matches: true, state_changes: true }
    }
}

/// Which single section a CSV export carries.
#[derive(Debug, Clone, Copy, PartialEq, Eq)]
pub enum CsvSection {
    RuleMatches,
    PatternMatches,
    StateChanges,
}

/// Parses a CSV section name.
pub fn parse_csv_section(s: &str) -> (r: Result<CsvSection, String>)
    ensures
        s@ == "rule_matches"@ ==> r == Ok::<CsvSection, String>(CsvSection::RuleMatches),
        s@ == "pattern_matches"@ ==> r == Ok::<CsvSection, String>(CsvSection::PatternMatches),
        s@ == "state_changes"@ ==> r == Ok::<CsvSection, String>(CsvSection::StateChanges),
        (s@ != "rule_matches"@ && s@ != "pattern_matches"@ && s@ != "state_changes"@) ==> r is Err,
{
    proof {
        reveal_strlit("rule_matches");
        reveal_strlit("pattern_matches");
        reveal_strlit("state_changes");
        assert("rule_matches"@.len() == 12);
        assert("pattern_matches"@.len() == 15);
        assert("state_changes"@.len() == 13);
    }
    if text::str_eq(s, "rule_matches") {
        Ok(CsvSection::RuleMatches)
    } else if text::str_eq(s, "pattern_matches") {
        Ok(CsvSection::PatternMatches)
    } else if text::str_eq(s, "state_changes") {
        Ok(CsvSection::StateChanges)
    } else {
        let mut m = String::new();
        m.append("invalid CSV section '");
        m.append(s);
        m.append("', expected rule_matches, pattern_matches, or state_changes");
        Err(m)
    }
}

/// The display name an id resolves to: the mapped name, or
/// `unknown(<id>)`.
pub open spec fn lookup_name_spec(names: Seq<(u64, String)>, id: u64) -> Seq<char> {
    match first_name(names, id) {
        Some(n) => n,
        None => "unknown("@ + text::dec_str(id as int) + ")"@,
    }
}

/// The first name an id maps to.
pub open spec fn first_name(names: Seq<(u64, String)>, id: u64) -> Option<Seq<char>>
    decreases names.len(),
{
    if names.len() == 0 {
        None
    } else if names[0].0 == id {
        Some(names[0].1@)
    } else {
        first_name(names.skip(1), id)
    }
}

/// Resolves an id to its display name for export rows
/// (`lookup_name_spec`).
pub fn lookup_name(names: &Vec<(u64, String)>, id: u64) -> (r: String)
    ensures
        r@ == lookup_name_spec(names@, id),
{
    let n = names.len();
    let mut i: usize = 0;
    proof {
        assert(names@.skip(0) =~= names@);
    }
    while i < n
        invariant
            i <= n,
            n == names@.len(),
            first_name(names@, id) == first_name(names@.skip(i as int), id),
        decreases n - i,
    {
        proof {
            assert(names@.skip(i as int)[0] == names@[i as int]);
            assert(names@.skip(i as int).skip(1) =~= names@.skip(i + 1));
        }
        if names[i].0 == id {
            return names[i].1.clone();
        }
        i = i + 1;
    }
    proof {
        assert(names@.skip(n as int) =~= Seq::<(u64, String)>::empty());
    }
    let mut m = String::new();
    m.append("unknown(");
    let digits = text::u64_to_string(id);
    m.append(digits.as_str());
    m.append(")");
    proof {
        reveal_strlit("unknown(");
        reveal_strlit(")");
        assert(m@ =~= "unknown("@ + text::dec_str(id as int) + ")"@);
    }
    m
}

} // verus!
