//! Per-source line parsing: splitting the text into physical lines,
//! merging continuation lines, JSON-per-line handling,
//! content-regex trimming, and timestamp extraction.

use vstd::prelude::*;

use crate::jsonx;
use crate::jsonx::{json_object_of, json_str_of};
use crate::model::{AnalysisError, LogLine, Source, SourceTemplate, TimestampTemplate};
use crate::regexes::{re_capture1, re_match, re_valid, regex_capture1, regex_is_match, regex_new};
use crate::timeparse::{parse_timestamp_full, parse_ts_spec};
use crate::times::Timestamp;

verus! {

/// The model of a parsed log line.
pub struct LineRep {
    pub timestamp: Timestamp,
    pub source_id: u64,
    pub raw: Seq<char>,
    pub content: Seq<char>,
}

impl View for LogLine {
    type V = LineRep;

    open spec fn view(&self) -> LineRep {
        LineRep {
            timestamp: self.timestamp,
            source_id: self.source_id,
            raw: self.raw@,
            content: self.content@,
        }
    }
}

impl LogLine {
    /// A copy with the same fields.
    pub fn clone_line(&self) -> (r: LogLine)
        ensures
            r@ == self@,
    {
        LogLine {
            timestamp: self.timestamp,
            source_id: self.source_id,
            raw: self.raw.clone(),
            content: self.content.clone(),
        }
    }
}

/// Why one entry failed to parse.
pub enum EntryErr {
    /// JSON mode: the text is not a JSON object.
    BadJson,
    /// JSON mode: the timestamp field is missing or not a string.
    BadField,
    /// The timestamp text does not parse under the format.
    BadTimestamp,
}

/// The index of the first newline in a text, or its length.
pub open spec fn first_nl(t: Seq<char>) -> int
    decreases t.len(),
{
    if t.len() == 0 {
        0
    } else if t[0] == '\n' {
        0
    } else {
        1 + first_nl(t.skip(1))
    }
}

/// One trailing carriage return is dropped from a physical line.
pub open spec fn strip_cr(s: Seq<char>) -> Seq<char> {
    if s.len() > 0 && s.last() == '\r' {
        s.drop_last()
    } else {
        s
    }
}

/// The physical lines of a text: split at every newline, one trailing
/// carriage return trimmed per line, and no empty line after a final
/// newline.
pub open spec fn split_lines(t: Seq<char>) -> Seq<Seq<char>>
    decreases t.len(),
    via split_lines_dec
{
    if t.len() == 0 {
        Seq::empty()
    } else {
        let i = first_nl(t);
        let head = strip_cr(t.take(i));
        if i >= t.len() {
            seq![head]
        } else {
            seq![head] + split_lines(t.skip(i + 1))
        }
    }
}

#[via_fn]
proof fn split_lines_dec(t: Seq<char>) {
    lemma_first_nl_bounds(t);
}

proof fn lemma_first_nl_at(t: Seq<char>, k: int)
    requires
        0 <= k <= t.len(),
        forall|j: int| 0 <= j < k ==> t[j] != '\n',
        k < t.len() ==> t[k] == '\n',
    ensures
        first_nl(t) == k,
    decreases k,
{
    if t.len() == 0 {
    } else if k == 0 {
    } else {
        assert(t[0] != '\n');
        assert(forall|j: int| 0 <= j < k - 1 ==> t.skip(1)[j] == t[j + 1]);
        lemma_first_nl_at(t.skip(1), k - 1);
    }
}

proof fn lemma_first_nl_bounds(t: Seq<char>)
    ensures
        0 <= first_nl(t) <= t.len(),
        first_nl(t) < t.len() ==> t[first_nl(t)] == '\n',
        forall|j: int| 0 <= j < first_nl(t) ==> t[j] != '\n',
    decreases t.len(),
{
    if t.len() > 0 && t[0] != '\n' {
        lemma_first_nl_bounds(t.skip(1));
        assert forall|j: int| 0 <= j < first_nl(t) implies t[j] != '\n' by {
            if j > 0 {
                assert(t.skip(1)[j - 1] != '\n');
            }
        }
    }
}

/// Splits a text into its physical lines (`split_lines`).
pub fn split_text(text: &str) -> (r: Vec<String>)
    ensures
        r@.map_values(|s: String| s@) == split_lines(text@),
{
    let n = text.unicode_len();
    let mut lines: Vec<String> = Vec::new();
    let mut pos: usize = 0;
    proof {
        assert(text@.skip(0) =~= text@);
        assert(lines@.map_values(|s: String| s@) =~= Seq::<Seq<char>>::empty());
    }
    while pos < n
        invariant
            pos <= n,
            n == text@.len(),
            split_lines(text@) == lines@.map_values(|s: String| s@) + split_lines(
                text@.skip(pos as int),
            ),
        decreases n - pos,
    {
        let ghost rest = text@.skip(pos as int);
        // find the next newline
        let mut j = pos;
        while j < n && text.get_char(j) != '\n'
            invariant
                pos <= j <= n,
                n == text@.len(),
                forall|k: int| pos <= k < j ==> text@[k] != '\n',
            decreases n - j,
        {
            j = j + 1;
        }
        proof {
            assert(forall|k: int| 0 <= k < j - pos ==> rest[k] == text@[pos + k]);
            lemma_first_nl_at(rest, j - pos);
        }
        // trim one trailing carriage return
        let end = if j > pos && text.get_char(j - 1) == '\r' {
            j - 1
        } else {
            j
        };
        let line = text.substring_char(pos, end);
        proof {
            assert(rest.take(j - pos) =~= text@.subrange(pos as int, j as int));
            assert(strip_cr(rest.take(j - pos)) =~= text@.subrange(pos as int, end as int));
            assert(line@ == text@.subrange(pos as int, end as int));
        }
        let ghost out0 = lines@.map_values(|s: String| s@);
        let owned = line.to_owned();
        lines.push(owned);
        proof {
            assert(lines@.map_values(|s: String| s@) =~= out0 + seq![strip_cr(
                rest.take(j - pos),
            )]);
        }
        if j < n {
            proof {
                assert(rest.skip(j - pos + 1) =~= text@.skip(j + 1));
                assert(split_lines(rest) == seq![strip_cr(rest.take(j - pos))] + split_lines(
                    text@.skip(j + 1),
                ));
                assert(out0 + split_lines(rest) =~= lines@.map_values(|s: String| s@)
                    + split_lines(text@.skip(j + 1)));
            }
            pos = j + 1;
        } else {
            proof {
                assert(rest.len() > 0);
                assert(split_lines(rest) == seq![strip_cr(rest.take(j - pos))]);
                assert(text@.skip(n as int) =~= Seq::<char>::empty());
                assert(out0 + split_lines(rest) =~= lines@.map_values(|s: String| s@)
                    + split_lines(text@.skip(n as int)));
            }
            pos = n;
        }
    }
    proof {
        assert(text@.skip(n as int) =~= Seq::<char>::empty());
        assert(split_lines(text@) =~= lines@.map_values(|s: String| s@));
    }
    lines
}

/// Joining of continuation lines onto a head entry: lines matching
/// the continuation pattern are appended with a newline; the first
/// non-matching line starts the next entry.
pub open spec fn group_from(lines: Seq<Seq<char>>, i: int, acc: Seq<char>, pat: Seq<char>) -> (
    Seq<char>,
    int,
)
    decreases lines.len() - i,
{
    if i < 0 || i >= lines.len() {
        (acc, lines.len() as int)
    } else if re_match(pat, lines[i]) {
        group_from(lines, i + 1, acc + seq!['\n'] + lines[i], pat)
    } else {
        (acc, i)
    }
}

/// The merged entries of a line list under a continuation pattern.
pub open spec fn group_lines(lines: Seq<Seq<char>>, i: int, pat: Seq<char>) -> Seq<Seq<char>>
    decreases lines.len() - i,
    via group_lines_dec
{
    if i < 0 || i >= lines.len() {
        Seq::empty()
    } else {
        let (merged, next) = group_from(lines, i + 1, lines[i], pat);
        seq![merged] + group_lines(lines, next, pat)
    }
}

#[via_fn]
proof fn group_lines_dec(lines: Seq<Seq<char>>, i: int, pat: Seq<char>) {
    if 0 <= i < lines.len() {
        lemma_group_from_advances(lines, i + 1, lines[i], pat);
    }
}

proof fn lemma_group_from_advances(lines: Seq<Seq<char>>, i: int, acc: Seq<char>, pat: Seq<char>)
    requires
        0 <= i <= lines.len(),
    ensures
        i <= group_from(lines, i, acc, pat).1 <= lines.len(),
    decreases lines.len() - i,
{
    if i < lines.len() && re_match(pat, lines[i]) {
        lemma_group_from_advances(lines, i + 1, acc + seq!['\n'] + lines[i], pat);
    }
}


/// Continuation merging is maximal: an entry starting at line `i`
/// consumes exactly the consecutive run of lines matching the
/// continuation pattern; every consumed line matches, and the first
/// line that does not match (when there is one) starts the next
/// entry.
pub proof fn lemma_continuation_grouping(lines: Seq<Seq<char>>, i: int, pat: Seq<char>)
    requires
        0 <= i < lines.len(),
    ensures
        ({
            let next = group_from(lines, i + 1, lines[i], pat).1;
            &&& i < next <= lines.len()
            &&& forall|j: int| i < j < next ==> re_match(pat, #[trigger] lines[j])
            &&& next < lines.len() ==> !re_match(pat, lines[next])
            &&& group_lines(lines, i, pat) == seq![group_from(lines, i + 1, lines[i], pat).0]
                + group_lines(lines, next, pat)
        }),
{
    lemma_group_from_advances(lines, i + 1, lines[i], pat);
    lemma_group_from_run(lines, i + 1, lines[i], pat);
}

/// Every line `group_from` consumes matches the pattern, and the line
/// it stops on (inside the list) does not.
proof fn lemma_group_from_run(lines: Seq<Seq<char>>, i: int, acc: Seq<char>, pat: Seq<char>)
    requires
        0 <= i <= lines.len(),
    ensures
        ({
            let next = group_from(lines, i, acc, pat).1;
            &&& forall|j: int| i <= j < next ==> re_match(pat, #[trigger] lines[j])
            &&& next < lines.len() ==> !re_match(pat, lines[next])
        }),
    decreases lines.len() - i,
{
    if i < lines.len() && re_match(pat, lines[i]) {
        lemma_group_from_advances(lines, i + 1, acc + seq!['\n'] + lines[i], pat);
        lemma_group_from_run(lines, i + 1, acc + seq!['\n'] + lines[i], pat);
    }
}

/// Merges consecutive continuation lines (`group_lines`); with no
/// continuation pattern every physical line is its own entry.
pub fn group_text(lines: &Vec<String>, cont: &regex::Regex) -> (r: Vec<String>)
    ensures
        r@.map_values(|s: String| s@) == group_lines(
            lines@.map_values(|s: String| s@),
            0,
            crate::regexes::re_pattern(*cont),
        ),
{
    let ghost lv = lines@.map_values(|s: String| s@);
    let ghost pat = crate::regexes::re_pattern(*cont);
    let n = lines.len();
    let mut out: Vec<String> = Vec::new();
    let mut i: usize = 0;
    proof {
        assert(out@.map_values(|s: String| s@) =~= Seq::<Seq<char>>::empty());
    }
    while i < n
        invariant
            i <= n,
            n == lines@.len(),
            lv == lines@.map_values(|s: String| s@),
            pat == crate::regexes::re_pattern(*cont),
            group_lines(lv, 0, pat) == out@.map_values(|s: String| s@) + group_lines(
                lv,
                i as int,
                pat,
            ),
        decreases n - i,
    {
        let ghost i0 = i as int;
        let mut merged = lines[i].clone();
        let mut j = i + 1;
        while j < n
            invariant_except_break
                i0 < j <= n,
                n == lines@.len(),
                lv == lines@.map_values(|s: String| s@),
                pat == crate::regexes::re_pattern(*cont),
                group_from(lv, i0 + 1, lv[i0], pat) == group_from(lv, j as int, merged@, pat),
            invariant
                n == lines@.len(),
            ensures
                i0 < j <= n,
                lv == lines@.map_values(|s: String| s@),
                pat == crate::regexes::re_pattern(*cont),
                group_from(lv, i0 + 1, lv[i0], pat) == (merged@, j as int),
            decreases n - j,
        {
            if regex_is_match(cont, lines[j].as_str()) {
                let ghost m0 = merged@;
                merged.append("\n");
                merged.append(lines[j].as_str());
                proof {
                    reveal_strlit("\n");
                    assert(merged@ =~= m0 + seq!['\n'] + lv[j as int]);
                    assert(group_from(lv, j as int, m0, pat) == group_from(
                        lv,
                        j + 1,
                        m0 + seq!['\n'] + lv[j as int],
                        pat,
                    ));
                }
                j = j + 1;
            } else {
                proof {
                    assert(group_from(lv, j as int, merged@, pat) == (merged@, j as int));
                }
                break ;
            }
        }
        let ghost out0 = out@.map_values(|s: String| s@);
        out.push(merged);
        proof {
            let stepv = group_from(lv, i0 + 1, lv[i0], pat);
            assert(group_lines(lv, i0, pat) == seq![stepv.0] + group_lines(lv, stepv.1, pat));
            assert(out@.map_values(|s: String| s@) =~= out0 + seq![stepv.0]);
            assert(out0 + (seq![stepv.0] + group_lines(lv, j as int, pat)) =~= out@.map_values(
                |s: String| s@,
            ) + group_lines(lv, j as int, pat));
        }
        i = j;
    }
    proof {
        assert(group_lines(lv, n as int, pat) =~= Seq::<Seq<char>>::empty());
        assert(group_lines(lv, 0, pat) =~= out@.map_values(|s: String| s@));
    }
    out
}


/// The first value in an object entry list under a key.
pub open spec fn obj_lookup(entries: Seq<(Seq<char>, Seq<char>)>, key: Seq<char>) -> Option<
    Seq<char>,
>
    decreases entries.len(),
{
    if entries.len() == 0 {
        None
    } else if entries[0].0 == key {
        Some(entries[0].1)
    } else {
        obj_lookup(entries.skip(1), key)
    }
}

/// The optional pattern a compiled optional regex stands for.
pub open spec fn opt_pattern(o: Option<regex::Regex>) -> Option<Seq<char>> {
    match o {
        Some(re) => Some(crate::regexes::re_pattern(re)),
        None => None,
    }
}

/// How one merged entry parses into a log line.
///
/// In JSON mode the entry must be a JSON object whose named field is a
/// string; that string is the timestamp text, and both `raw` and
/// `content` are the entry text.  Otherwise the first physical line
/// drives both the content regex (capture group 1, with any
/// continuation tail re-appended; the whole entry on no match) and the
/// timestamp extraction regex (capture group 1, else the first line).
pub open spec fn parse_entry(
    raw: Seq<char>,
    sid: u64,
    fmt: Seq<char>,
    ext_re: Option<Seq<char>>,
    content_re: Option<Seq<char>>,
    json_field: Option<Seq<char>>,
    default_year: Option<i32>,
) -> Result<LineRep, EntryErr> {
    match json_field {
        Some(field) => match json_object_of(raw) {
            Some(entries) => match obj_lookup(entries, field) {
                Some(rep) => match json_str_of(rep) {
                    Some(ts_str) => match parse_ts_spec(ts_str, fmt, default_year) {
                        Some(ts) => Ok(
                            LineRep { timestamp: ts, source_id: sid, raw: raw, content: raw },
                        ),
                        None => Err(EntryErr::BadTimestamp),
                    },
                    None => Err(EntryErr::BadField),
                },
                None => Err(EntryErr::BadField),
            },
            None => Err(EntryErr::BadJson),
        },
        None => {
            let k = first_nl(raw);
            let fl = raw.take(k);
            let content = match content_re {
                Some(p) => match re_capture1(p, fl) {
                    Some(g) => {
                        let head = match g {
                            Some(h) => h,
                            None => fl,
                        };
                        if k < raw.len() {
                            head + raw.skip(k)
                        } else {
                            head
                        }
                    },
                    None => raw,
                },
                None => raw,
            };
            let ts_input = match ext_re {
                Some(p) => match re_capture1(p, fl) {
                    Some(Some(g)) => g,
                    Some(None) => fl,
                    None => fl,
                },
                None => fl,
            };
            match parse_ts_spec(ts_input, fmt, default_year) {
                Some(ts) => Ok(LineRep { timestamp: ts, source_id: sid, raw: raw, content }),
                None => Err(EntryErr::BadTimestamp),
            }
        },
    }
}

/// Whether an executable parse result realizes a modelled one: equal
/// lines, or errors of the corresponding kind.
pub open spec fn result_matches(r: Result<LogLine, AnalysisError>, m: Result<LineRep, EntryErr>) -> bool {
    match (r, m) {
        (Ok(ll), Ok(rep)) => ll@ == rep,
        (Err(e), Err(EntryErr::BadTimestamp)) => e is InvalidTimestampFormat,
        (Err(e), Err(EntryErr::BadJson)) => e is ParseError,
        (Err(e), Err(EntryErr::BadField)) => e is ParseError,
        _ => false,
    }
}

/// The index of the first newline of a string, or its length.
fn find_nl(s: &str) -> (r: usize)
    ensures
        r as int == first_nl(s@),
        r <= s@.len(),
{
    let n = s.unicode_len();
    let mut j: usize = 0;
    while j < n && s.get_char(j) != '\n'
        invariant
            j <= n,
            n == s@.len(),
            forall|k: int| 0 <= k < j ==> s@[k] != '\n',
        decreases n - j,
    {
        j = j + 1;
    }
    proof {
        lemma_first_nl_at(s@, j as int);
    }
    j
}

/// Parses one merged entry (`parse_entry`).
fn parse_entry_exec(
    raw: String,
    sid: u64,
    fmt: &str,
    ext_re: &Option<regex::Regex>,
    content_re: &Option<regex::Regex>,
    json_field: &Option<String>,
    default_year: Option<i32>,
) -> (r: Result<LogLine, AnalysisError>)
    ensures
        result_matches(
            r,
            parse_entry(
                raw@,
                sid,
                fmt@,
                opt_pattern(*ext_re),
                opt_pattern(*content_re),
                match json_field {
                    Some(f) => Some(f@),
                    None => None,
                },
                default_year,
            ),
        ),
{
    match json_field {
        Some(field) => {
            let entries = match jsonx::json_parse_object(raw.as_str()) {
                Some(entries) => entries,
                None => {
                    let mut m = String::new();
                    m.append("failed to parse JSON: ");
                    m.append(raw.as_str());
                    return Err(AnalysisError::ParseError(m));
                },
            };
            let ghost reps = json_object_of(raw@)->Some_0;
            let n = entries.len();
            let mut i: usize = 0;
            let mut found: Option<&serde_json::Value> = None;
            proof {
                assert(reps.skip(0) =~= reps);
            }
            while i < n
                invariant_except_break
                    i <= n,
                    found is None,
                    n == entries@.len(),
                    reps == json_object_of(raw@)->Some_0,
                    json_object_of(raw@) is Some,
                    reps.len() == entries@.len(),
                    forall|k: int|
                        0 <= k < entries@.len() ==> #[trigger] reps[k] == (
                        entries@[k].0@,
                        jsonx::json_rep(entries@[k].1),
                    ),
                    obj_lookup(reps, field@) == obj_lookup(reps.skip(i as int), field@),
                invariant
                    n == entries@.len(),
                ensures
                    match found {
                        Some(v) => obj_lookup(reps, field@) == Some(jsonx::json_rep(*v)),
                        None => obj_lookup(reps, field@) is None,
                    },
                decreases n - i,
            {
                proof {
                    assert(reps.skip(i as int)[0] == reps[i as int]);
                    assert(reps.skip(i as int).skip(1) =~= reps.skip(i + 1));
                }
                if crate::text::str_eq(entries[i].0.as_str(), field.as_str()) {
                    found = Some(&entries[i].1);
                    break ;
                }
                i = i + 1;
                proof {
                    if i == n {
                        assert(reps.skip(n as int) =~= Seq::<(Seq<char>, Seq<char>)>::empty());
                    }
                }
            }
            let v = match found {
                Some(v) => v,
                None => {
                    let mut m = String::new();
                    m.append("JSON field '");
                    m.append(field.as_str());
                    m.append("' not found or not a string");
                    return Err(AnalysisError::ParseError(m));
                },
            };
            let ts_str = match jsonx::json_value_as_str(v) {
                Some(s) => s,
                None => {
                    let mut m = String::new();
                    m.append("JSON field '");
                    m.append(field.as_str());
                    m.append("' not found or not a string");
                    return Err(AnalysisError::ParseError(m));
                },
            };
            match parse_timestamp_full(ts_str.as_str(), fmt, default_year) {
                Some(ts) => {
                    let content = raw.clone();
                    Ok(LogLine { timestamp: ts, source_id: sid, raw, content })
                },
                None => {
                    let mut m = String::new();
                    m.append("failed to parse timestamp from '");
                    m.append(ts_str.as_str());
                    m.append("' with format '");
                    m.append(fmt);
                    m.append("'");
                    Err(AnalysisError::InvalidTimestampFormat(m))
                },
            }
        },
        None => {
            let k = find_nl(raw.as_str());
            let first_line = raw.as_str().substring_char(0, k);
            proof {
                assert(first_line@ =~= raw@.take(first_nl(raw@)));
            }
            let has_tail = k < raw.as_str().unicode_len();
            let content: String = match content_re {
                Some(re) => {
                    match regex_capture1(re, first_line) {
                        Some(g) => {
                            let head: String = match g {
                                Some(h) => h,
                                None => first_line.to_owned(),
                            };
                            if has_tail {
                                let tail = raw.as_str().substring_char(
                                    k,
                                    raw.as_str().unicode_len(),
                                );
                                let mut c = head;
                                c.append(tail);
                                proof {
                                    assert(tail@ =~= raw@.skip(first_nl(raw@)));
                                }
                                c
                            } else {
                                head
                            }
                        },
                        None => raw.clone(),
                    }
                },
                None => raw.clone(),
            };
            let ts_input: String = match ext_re {
                Some(re) => {
                    match regex_capture1(re, first_line) {
                        Some(Some(g)) => g,
                        Some(None) => first_line.to_owned(),
                        None => first_line.to_owned(),
                    }
                },
                None => first_line.to_owned(),
            };
            match parse_timestamp_full(ts_input.as_str(), fmt, default_year) {
                Some(ts) => Ok(LogLine { timestamp: ts, source_id: sid, raw, content }),
                None => {
                    let mut m = String::new();
                    m.append("failed to parse timestamp from '");
                    m.append(first_line);
                    m.append("' with format '");
                    m.append(fmt);
                    m.append("'");
                    Err(AnalysisError::InvalidTimestampFormat(m))
                },
            }
        },
    }
}

/// The parse results of every entry of a source text, in order.
pub open spec fn source_entries(
    text: Seq<char>,
    sid: u64,
    fmt: Seq<char>,
    ext_re: Option<Seq<char>>,
    cont_re: Option<Seq<char>>,
    content_re: Option<Seq<char>>,
    json_field: Option<Seq<char>>,
    default_year: Option<i32>,
) -> Seq<Result<LineRep, EntryErr>> {
    let lines = split_lines(text);
    let groups = match cont_re {
        Some(p) => group_lines(lines, 0, p),
        None => lines,
    };
    groups.map_values(
        |g: Seq<char>| parse_entry(g, sid, fmt, ext_re, content_re, json_field, default_year),
    )
}

/// Lazily yields the parsed log lines of one source text.
pub struct LogLineIterator {
    entries: Vec<Result<LogLine, AnalysisError>>,
    pos: usize,
    reps: Ghost<Seq<Result<LineRep, EntryErr>>>,
}

impl LogLineIterator {
    /// The modelled entries not yet handed out.
    pub closed spec fn remaining(&self) -> Seq<Result<LineRep, EntryErr>> {
        self.reps@.skip(self.pos as int)
    }

    pub closed spec fn wf(&self) -> bool {
        &&& self.pos <= self.entries@.len()
        &&& self.entries@.len() == self.reps@.len()
        &&& forall|i: int|
            0 <= i < self.entries@.len() ==> result_matches(
                #[trigger] self.entries@[i],
                self.reps@[i],
            )
    }

    /// Builds the iterator for one source: compiles the template's
    /// regexes (failing with `InvalidRegex` exactly when one is
    /// rejected), splits the text, merges continuation lines, and
    /// parses every entry (`source_entries`).
    pub fn new(
        source: &Source,
        template: &SourceTemplate,
        ts_template: &TimestampTemplate,
        text: &str,
    ) -> (r: Result<LogLineIterator, AnalysisError>)
        ensures
            r is Ok <==> source_regexes_valid(*template, *ts_template),
            r matches Ok(it) ==> it.wf() && it.remaining() == source_entries(
                text@,
                source.id,
                ts_template.format@,
                opt_view(ts_template.extraction_regex),
                opt_view(template.continuation_regex),
                opt_view(template.content_regex),
                opt_view(template.json_timestamp_field),
                ts_template.default_year,
            ),
            r matches Err(e) ==> e is InvalidRegex,
    {
        let content_re: Option<regex::Regex> = match &template.content_regex {
            Some(pat) => match regex_new(pat.as_str()) {
                Ok(re) => Some(re),
                Err(e) => {
                    return Err(AnalysisError::InvalidRegex(e));
                },
            },
            None => None,
        };
        let ext_re: Option<regex::Regex> = match &ts_template.extraction_regex {
            Some(pat) => match regex_new(pat.as_str()) {
                Ok(re) => Some(re),
                Err(e) => {
                    return Err(AnalysisError::InvalidRegex(e));
                },
            },
            None => None,
        };
        let cont_re: Option<regex::Regex> = match &template.continuation_regex {
            Some(pat) => match regex_new(pat.as_str()) {
                Ok(re) => Some(re),
                Err(e) => {
                    return Err(AnalysisError::InvalidRegex(e));
                },
            },
            None => None,
        };
        let lines = split_text(text);
        let groups: Vec<String> = match &cont_re {
            Some(re) => group_text(&lines, re),
            None => lines,
        };
        let ghost gv = groups@.map_values(|s: String| s@);
        let n = groups.len();
        let mut entries: Vec<Result<LogLine, AnalysisError>> = Vec::new();
        let ghost expect = source_entries(
            text@,
            source.id,
            ts_template.format@,
            opt_view(ts_template.extraction_regex),
            opt_view(template.continuation_regex),
            opt_view(template.content_regex),
            opt_view(template.json_timestamp_field),
            ts_template.default_year,
        );
        proof {
            assert(expect =~= gv.map_values(
                |g: Seq<char>| parse_entry(
                    g,
                    source.id,
                    ts_template.format@,
                    opt_pattern(ext_re),
                    opt_pattern(content_re),
                    opt_view(template.json_timestamp_field),
                    ts_template.default_year,
                ),
            ));
        }
        let mut i: usize = 0;
        let mut groups = groups;
        // consume the groups front to back, keeping indices aligned
        while i < n
            invariant
                i <= n,
                n == groups@.len(),
                gv == groups@.map_values(|s: String| s@),
                entries@.len() == i,
                expect.len() == n,
                opt_pattern(ext_re) == opt_view(ts_template.extraction_regex),
                opt_pattern(content_re) == opt_view(template.content_regex),
                forall|k: int|
                    0 <= k < i ==> result_matches(#[trigger] entries@[k], expect[k]),
                forall|k: int|
                    0 <= k < n ==> expect[k] == parse_entry(
                        gv[k],
                        source.id,
                        ts_template.format@,
                        opt_pattern(ext_re),
                        opt_pattern(content_re),
                        opt_view(template.json_timestamp_field),
                        ts_template.default_year,
                    ),
            decreases n - i,
        {
            let g = groups[i].clone();
            let e = parse_entry_exec(
                g,
                source.id,
                ts_template.format.as_str(),
                &ext_re,
                &content_re,
                &template.json_timestamp_field,
                ts_template.default_year,
            );
            entries.push(e);
            i = i + 1;
        }
        Ok(LogLineIterator { entries, pos: 0, reps: Ghost(expect) })
    }

    /// Hands out the next parsed entry, or `None` at the end.
    pub fn next(&mut self) -> (r: Option<Result<LogLine, AnalysisError>>)
        requires
            old(self).wf(),
        ensures
            final(self).wf(),
            old(self).remaining().len() == 0 ==> r is None && final(self).remaining()
                == old(self).remaining(),
            old(self).remaining().len() > 0 ==> (r matches Some(e) && result_matches(
                e,
                old(self).remaining()[0],
            ) && final(self).remaining() == old(self).remaining().skip(1)),
    {
        if self.pos < self.entries.len() {
            let e = match &self.entries[self.pos] {
                Ok(ll) => Ok(ll.clone_line()),
                Err(err) => Err(err.clone_err()),
            };
            self.pos = self.pos + 1;
            proof {
                assert(self.reps@.skip(self.pos - 1)[0] == self.reps@[self.pos - 1]);
                assert(self.reps@.skip(self.pos - 1).skip(1) =~= self.reps@.skip(
                    self.pos as int,
                ));
            }
            Some(e)
        } else {
            None
        }
    }
}

/// The view of an optional pattern / field string.
pub open spec fn opt_view(o: Option<String>) -> Option<Seq<char>> {
    match o {
        Some(s) => Some(s@),
        None => None,
    }
}

/// Whether every regex a source template names compiles.
pub open spec fn source_regexes_valid(template: SourceTemplate, ts_template: TimestampTemplate) -> bool {
    &&& (template.content_regex matches Some(p) ==> re_valid(p@))
    &&& (ts_template.extraction_regex matches Some(p) ==> re_valid(p@))
    &&& (template.continuation_regex matches Some(p) ==> re_valid(p@))
}

} // verus!

