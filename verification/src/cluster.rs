//! Structural clustering of log lines: tokens that look like
//! variables (identifiers, addresses, numbers, times, paths, quoted
//! text) are masked, and lines sharing the masked signature are
//! counted together.

use vstd::prelude::*;

use crate::lines::LineRep;
use crate::model::{AnalysisError, LogLine};
use crate::text::is_ws_char;
use crate::times::Timestamp;

verus! {

/// A cluster of log lines sharing one masked template.
#[derive(Debug, Clone)]
pub struct LogCluster {
    pub template: String,
    pub count: u64,
    pub source_ids: Vec<u64>,
    pub sample_lines: Vec<String>,
}

/// The model of a cluster.
pub struct ClusterRep {
    pub template: Seq<char>,
    pub count: u64,
    pub source_ids: Seq<u64>,
    pub sample_lines: Seq<Seq<char>>,
}

impl View for LogCluster {
    type V = ClusterRep;

    open spec fn view(&self) -> ClusterRep {
        ClusterRep {
            template: self.template@,
            count: self.count,
            source_ids: self.source_ids@,
            sample_lines: self.sample_lines@.map_values(|s: String| s@),
        }
    }
}

/// The clustering result: the kept clusters and the number of lines
/// that went in.
#[derive(Debug, Clone)]
pub struct ClusterResult {
    pub clusters: Vec<LogCluster>,
    pub total_lines: u64,
}

pub open spec fn is_digit_c(c: char) -> bool {
    48 <= c as int <= 57
}

pub open spec fn is_hex_c(c: char) -> bool {
    is_digit_c(c) || (97 <= c as int <= 102) || (65 <= c as int <= 70)
}

/// What a UUID position must hold: a separator at the four dash
/// positions, a hexadecimal character elsewhere.
pub open spec fn uuid_pos_ok(t: Seq<char>, i: int) -> bool {
    if i == 8 || i == 13 || i == 18 || i == 23 {
        t[i] == '-'
    } else {
        is_hex_c(t[i])
    }
}

/// An 8-4-4-4-12 hexadecimal identifier.
pub open spec fn is_uuid_token(t: Seq<char>) -> bool {
    t.len() == 36 && forall|i: int| 0 <= i < 36 ==> uuid_pos_ok(t, i)
}

/// What a calendar-datetime position must hold over the first
/// nineteen characters.
pub open spec fn iso_pos_ok(t: Seq<char>, i: int) -> bool {
    if i == 4 || i == 7 {
        t[i] == '-'
    } else if i == 10 {
        t[i] == 'T' || t[i] == ' '
    } else if i == 13 || i == 16 {
        t[i] == ':'
    } else {
        is_digit_c(t[i])
    }
}

/// A calendar datetime prefix: `YYYY-MM-DD`, `T` or a space, then
/// `HH:MM:SS`, with anything after.
pub open spec fn is_iso_token(t: Seq<char>) -> bool {
    t.len() >= 19 && forall|i: int| 0 <= i < 19 ==> iso_pos_ok(t, i)
}

/// The end of the digit run starting at `i`.
pub open spec fn run_end(t: Seq<char>, i: int) -> int
    decreases t.len() - i,
{
    if i < 0 || i >= t.len() || !is_digit_c(t[i]) {
        i
    } else {
        run_end(t, i + 1)
    }
}

/// A dotted IPv4 address with an optional `:port`: four runs of one
/// to three digits separated by dots, optionally a colon and digits.
pub open spec fn is_ip_token(t: Seq<char>) -> bool {
    let a = run_end(t, 0);
    let b = run_end(t, a + 1);
    let c = run_end(t, b + 1);
    let p = run_end(t, c + 1);
    &&& 1 <= a <= 3 && a < t.len() && t[a] == '.'
    &&& 1 <= b - (a + 1) <= 3 && b < t.len() && t[b] == '.'
    &&& 1 <= c - (b + 1) <= 3 && c < t.len() && t[c] == '.'
    &&& 1 <= p - (c + 1) <= 3
    &&& (p == t.len() || (t[p] == ':' && p + 1 < t.len() && run_end(t, p + 1) == t.len()))
}

/// A hexadecimal token: `0x` then hex digits, or a run of eight or
/// more hex characters.
pub open spec fn is_hex_token(t: Seq<char>) -> bool {
    (t.len() >= 3 && t[0] == '0' && t[1] == 'x' && (forall|i: int|
        2 <= i < t.len() ==> is_hex_c(#[trigger] t[i]))) || (t.len() >= 8 && (forall|i: int|
        0 <= i < t.len() ==> is_hex_c(#[trigger] t[i])))
}

/// An absolute path with at least two segments: a leading slash and
/// an inner slash with text on both sides.
pub open spec fn is_path_token(t: Seq<char>) -> bool {
    t.len() >= 4 && t[0] == '/' && exists|p: int| 2 <= p <= t.len() - 2 && (#[trigger] t[p]) == '/'
}

/// A double- or single-quoted token with no inner quote of the same
/// kind.
pub open spec fn is_quoted_token(t: Seq<char>) -> bool {
    t.len() >= 2 && ((t[0] == '"' && t.last() == '"' && (forall|i: int|
        0 < i < t.len() - 1 ==> (#[trigger] t[i]) != '"')) || (t[0] == 0x27 as char && t.last() == (
    0x27 as char) && (forall|i: int| 0 < i < t.len() - 1 ==> (#[trigger] t[i]) != (0x27 as char))))
}

/// A time of day `H:MM:SS` or `HH:MM:SS`, optionally followed by `,`
/// or `.` and at least one digit.
pub open spec fn is_time_token(t: Seq<char>) -> bool {
    let h = run_end(t, 0);
    let m = run_end(t, h + 1);
    let s = run_end(t, m + 1);
    &&& 1 <= h <= 2 && h < t.len() && t[h] == ':'
    &&& m - (h + 1) == 2 && m < t.len() && t[m] == ':'
    &&& s - (m + 1) == 2
    &&& (s == t.len() || ((t[s] == ',' || t[s] == '.') && s + 1 < t.len() && run_end(t, s + 1)
        == t.len()))
}

/// A decimal number: digits, a dot, digits.
pub open spec fn is_decimal_token(t: Seq<char>) -> bool {
    let d = run_end(t, 0);
    d >= 1 && d < t.len() && t[d] == '.' && d + 1 < t.len() && run_end(t, d + 1) == t.len()
}

/// A run of digits only.
pub open spec fn is_int_token(t: Seq<char>) -> bool {
    t.len() >= 1 && run_end(t, 0) == t.len()
}

/// Any token containing a digit.
pub open spec fn has_digit(t: Seq<char>) -> bool {
    exists|i: int| 0 <= i < t.len() && is_digit_c(#[trigger] t[i])
}

/// Whether a token is masked: one of the variable shapes, with a
/// digit anywhere as the catch-all.
pub open spec fn is_variable_token(t: Seq<char>) -> bool {
    ||| is_uuid_token(t)
    ||| is_iso_token(t)
    ||| is_ip_token(t)
    ||| is_hex_token(t)
    ||| is_path_token(t)
    ||| is_quoted_token(t)
    ||| is_time_token(t)
    ||| is_decimal_token(t)
    ||| is_int_token(t)
    ||| has_digit(t)
}

fn is_digit_e(c: char) -> (r: bool)
    ensures
        r == is_digit_c(c),
{
    let u = c as u32;
    48 <= u && u <= 57
}

fn is_hex_e(c: char) -> (r: bool)
    ensures
        r == is_hex_c(c),
{
    let u = c as u32;
    (48 <= u && u <= 57) || (97 <= u && u <= 102) || (65 <= u && u <= 70)
}

/// The end of the digit run starting at `i` (`run_end`).
fn run_end_exec(t: &Vec<char>, i: usize) -> (r: usize)
    requires
        i <= t@.len(),
    ensures
        r as int == run_end(t@, i as int),
        i <= r <= t@.len(),
{
    let n = t.len();
    let mut j = i;
    while j < n && is_digit_e(t[j])
        invariant
            i <= j <= n,
            n == t@.len(),
            run_end(t@, i as int) == run_end(t@, j as int),
        decreases n - j,
    {
        j = j + 1;
    }
    j
}

/// Whether a token is masked as a variable (`is_variable_token`).
#[verifier::rlimit(60)]
pub fn token_is_variable(t: &Vec<char>) -> (r: bool)
    ensures
        r == is_variable_token(t@),
{
    let n = t.len();
    // UUID
    let uuid = if n == 36 {
        let mut ok = true;
        let mut i: usize = 0;
        while i < 36
            invariant
                i <= 36,
                n == 36,
                n == t@.len(),
                ok == (forall|j: int| 0 <= j < i ==> uuid_pos_ok(t@, j)),
            decreases 36 - i,
        {
            let good = if i == 8 || i == 13 || i == 18 || i == 23 {
                t[i] == '-'
            } else {
                is_hex_e(t[i])
            };
            proof {
                assert(good == uuid_pos_ok(t@, i as int));
            }
            if !good {
                proof {
                    assert(!(forall|j: int| 0 <= j < 36 ==> uuid_pos_ok(t@, j)));
                }
                ok = false;
                i = 36;
            } else {
                i = i + 1;
            }
        }
        ok
    } else {
        false
    };
    if uuid {
        return true;
    }
    // calendar datetime prefix
    let iso = if n >= 19 {
        let mut ok = true;
        let mut i: usize = 0;
        while i < 19
            invariant
                i <= 19,
                n >= 19,
                n == t@.len(),
                ok == (forall|j: int| 0 <= j < i ==> iso_pos_ok(t@, j)),
            decreases 19 - i,
        {
            let c = t[i];
            let good = if i == 4 || i == 7 {
                c == '-'
            } else if i == 10 {
                c == 'T' || c == ' '
            } else if i == 13 || i == 16 {
                c == ':'
            } else {
                is_digit_e(c)
            };
            proof {
                assert(good == iso_pos_ok(t@, i as int));
            }
            if !good {
                proof {
                    assert(!(forall|j: int| 0 <= j < 19 ==> iso_pos_ok(t@, j)));
                }
                ok = false;
                i = 19;
            } else {
                i = i + 1;
            }
        }
        ok
    } else {
        false
    };
    if iso {
        return true;
    }
    // dotted address with optional port
    let a = run_end_exec(t, 0);
    if 1 <= a && a <= 3 && a < n && t[a] == '.' {
        let b = run_end_exec(t, a + 1);
        if b >= a + 2 && b <= a + 4 && b < n && t[b] == '.' {
            let c = run_end_exec(t, b + 1);
            if c >= b + 2 && c <= b + 4 && c < n && t[c] == '.' {
                let p = run_end_exec(t, c + 1);
                if p >= c + 2 && p <= c + 4 {
                    if p == n {
                        return true;
                    }
                    if t[p] == ':' && p + 1 < n {
                        let q = run_end_exec(t, p + 1);
                        if q == n {
                            return true;
                        }
                    }
                }
            }
        }
    }
    // hexadecimal
    if n >= 3 && t[0] == '0' && t[1] == 'x' {
        let mut ok = true;
        let mut i: usize = 2;
        while i < n
            invariant
                2 <= i <= n,
                n == t@.len(),
                ok == (forall|j: int| 2 <= j < i ==> is_hex_c(#[trigger] t@[j])),
            decreases n - i,
        {
            if !is_hex_e(t[i]) {
                ok = false;
                i = n;
            } else {
                i = i + 1;
            }
        }
        if ok {
            return true;
        }
    }
    if n >= 8 {
        let mut ok = true;
        let mut i: usize = 0;
        while i < n
            invariant
                i <= n,
                n == t@.len(),
                ok == (forall|j: int| 0 <= j < i ==> is_hex_c(#[trigger] t@[j])),
            decreases n - i,
        {
            if !is_hex_e(t[i]) {
                ok = false;
                i = n;
            } else {
                i = i + 1;
            }
        }
        if ok {
            return true;
        }
    }
    // absolute path
    if n >= 4 && t[0] == '/' {
        let mut i: usize = 2;
        while i <= n - 2
            invariant
                2 <= i,
                n >= 4,
                i <= n - 1,
                n == t@.len(),
                t@[0] == '/',
                forall|j: int| 2 <= j < i ==> (#[trigger] t@[j]) != '/',
            decreases n - i,
        {
            if t[i] == '/' {
                proof {
                    assert(2 <= i as int <= t@.len() - 2 && t@[i as int] == '/');
                }
                return true;
            }
            i = i + 1;
        }
        proof {
            if is_path_token(t@) {
                let w = choose|p: int| 2 <= p <= t@.len() - 2 && (#[trigger] t@[p]) == '/';
            }
        }
    }
    // quoted
    if n >= 2 {
        let q0 = t[0];
        let qn = t[n - 1];
        if (q0 == '"' && qn == '"') || (q0 == 0x27 as char && qn == 0x27 as char) {
            let quote = q0;
            let mut ok = true;
            let mut i: usize = 1;
            while i < n - 1
                invariant
                    1 <= i <= n - 1,
                    n >= 2,
                    n == t@.len(),
                    ok == (forall|j: int| 0 < j < i ==> (#[trigger] t@[j]) != quote),
                decreases n - 1 - i,
            {
                if t[i] == quote {
                    ok = false;
                    i = n - 1;
                } else {
                    i = i + 1;
                }
            }
            if ok {
                return true;
            }
        }
    }
    // time of day
    let h = run_end_exec(t, 0);
    if 1 <= h && h <= 2 && h < n && t[h] == ':' {
        let m = run_end_exec(t, h + 1);
        if m == h + 3 && m < n && t[m] == ':' {
            let s = run_end_exec(t, m + 1);
            if s == m + 3 {
                if s == n {
                    return true;
                }
                if (t[s] == ',' || t[s] == '.') && s + 1 < n {
                    let q = run_end_exec(t, s + 1);
                    if q == n {
                        return true;
                    }
                }
            }
        }
    }
    // decimal
    let d = run_end_exec(t, 0);
    if d >= 1 && d < n && t[d] == '.' && d + 1 < n {
        let q = run_end_exec(t, d + 1);
        if q == n {
            return true;
        }
    }
    // plain integer
    if n >= 1 && d == n {
        return true;
    }
    // any digit at all
    let mut i: usize = 0;
    while i < n
        invariant
            i <= n,
            n == t@.len(),
            forall|j: int| 0 <= j < i ==> !is_digit_c(#[trigger] t@[j]),
        decreases n - i,
    {
        if is_digit_e(t[i]) {
            return true;
        }
        i = i + 1;
    }
    proof {
        if has_digit(t@) {
            let w = choose|j: int| 0 <= j < t@.len() && is_digit_c(#[trigger] t@[j]);
        }
    }
    false
}


/// The first non-white-space position at or after `i`.
pub open spec fn ws_end(s: Seq<char>, i: int) -> int
    decreases s.len() - i,
{
    if i < 0 || i >= s.len() || !is_ws_char(s[i]) {
        i
    } else {
        ws_end(s, i + 1)
    }
}

/// The first white-space position at or after `i`.
pub open spec fn tok_end(s: Seq<char>, i: int) -> int
    decreases s.len() - i,
{
    if i < 0 || i >= s.len() || is_ws_char(s[i]) {
        i
    } else {
        tok_end(s, i + 1)
    }
}

proof fn lemma_ws_end_bounds(s: Seq<char>, i: int)
    requires
        0 <= i <= s.len(),
    ensures
        i <= ws_end(s, i) <= s.len(),
        ws_end(s, i) < s.len() ==> !is_ws_char(s[ws_end(s, i)]),
    decreases s.len() - i,
{
    if i < s.len() && is_ws_char(s[i]) {
        lemma_ws_end_bounds(s, i + 1);
    }
}

proof fn lemma_tok_end_bounds(s: Seq<char>, i: int)
    requires
        0 <= i <= s.len(),
    ensures
        i <= tok_end(s, i) <= s.len(),
        i < s.len() && !is_ws_char(s[i]) ==> tok_end(s, i) > i,
    decreases s.len() - i,
{
    if i < s.len() && !is_ws_char(s[i]) {
        lemma_tok_end_bounds(s, i + 1);
    }
}

/// The white-space-separated tokens of a line, from position `i`.
pub open spec fn tokens_from(s: Seq<char>, i: int) -> Seq<Seq<char>>
    decreases s.len() - i,
    via tokens_from_dec
{
    if i < 0 || i >= s.len() {
        Seq::empty()
    } else {
        let j = ws_end(s, i);
        if j >= s.len() {
            Seq::empty()
        } else {
            let k = tok_end(s, j);
            seq![s.subrange(j, k)] + tokens_from(s, k)
        }
    }
}

#[via_fn]
proof fn tokens_from_dec(s: Seq<char>, i: int) {
    if 0 <= i < s.len() {
        lemma_ws_end_bounds(s, i);
        let j = ws_end(s, i);
        if j < s.len() {
            lemma_tok_end_bounds(s, j);
        }
    }
}

/// A token, masked when it looks like a variable.
pub open spec fn mask_token(t: Seq<char>) -> Seq<char> {
    if is_variable_token(t) {
        "<*>"@
    } else {
        t
    }
}

/// Tokens joined with single spaces.
pub open spec fn join_tokens(ts: Seq<Seq<char>>) -> Seq<char>
    decreases ts.len(),
{
    if ts.len() == 0 {
        Seq::empty()
    } else if ts.len() == 1 {
        ts[0]
    } else {
        ts[0] + seq![' '] + join_tokens(ts.skip(1))
    }
}

/// The masked signature of a line: its tokens, variables replaced by
/// `<*>`, joined with single spaces.
pub open spec fn sig_of(s: Seq<char>) -> Seq<char> {
    join_tokens(tokens_from(s, 0).map_values(|t: Seq<char>| mask_token(t)))
}

/// Tokenizes a line, masking variable-looking tokens (`sig_of`).
#[verifier::rlimit(60)]
pub fn tokenize(line: &str) -> (r: String)
    ensures
        r@ == sig_of(line@),
{
    let n = line.unicode_len();
    let mut out = String::new();
    let mut first = true;
    let mut i: usize = 0;
    let ghost toks = tokens_from(line@, 0).map_values(|t: Seq<char>| mask_token(t));
    proof {
        assert(join_tokens(toks) == sig_of(line@));
    }
    let ghost mut emitted: int = 0;
    while i < n
        invariant
            i <= n,
            n == line@.len(),
            toks == tokens_from(line@, 0).map_values(|t: Seq<char>| mask_token(t)),
            0 <= emitted <= toks.len(),
            first <==> emitted == 0,
            tokens_from(line@, i as int).map_values(|t: Seq<char>| mask_token(t)) == toks.skip(
                emitted,
            ),
            emitted == 0 ==> out@ == Seq::<char>::empty(),
            emitted > 0 ==> out@ == join_tokens(toks.take(emitted)),
        decreases n - i,
    {
        // skip white space
        let mut j = i;
        while j < n && crate::text::is_ws(line.get_char(j))
            invariant
                i <= j <= n,
                n == line@.len(),
                ws_end(line@, i as int) == ws_end(line@, j as int),
            decreases n - j,
        {
            j = j + 1;
        }
        proof {
            assert(ws_end(line@, j as int) == j as int);
        }
        if j == n {
            proof {
                assert(tokens_from(line@, i as int) =~= Seq::<Seq<char>>::empty());
                assert(toks.skip(emitted) =~= Seq::<Seq<char>>::empty());
                assert(emitted == toks.len());
            }
            i = n;
        } else {
            // take the token
            let mut k = j;
            let mut chars: Vec<char> = Vec::new();
            while k < n && !crate::text::is_ws(line.get_char(k))
                invariant
                    j <= k <= n,
                    n == line@.len(),
                    tok_end(line@, j as int) == tok_end(line@, k as int),
                    chars@ == line@.subrange(j as int, k as int),
                decreases n - k,
            {
                let c = line.get_char(k);
                chars.push(c);
                proof {
                    assert(chars@ =~= line@.subrange(j as int, k + 1));
                }
                k = k + 1;
            }
            proof {
                assert(tok_end(line@, k as int) == k as int);
                assert(tokens_from(line@, i as int) == seq![line@.subrange(j as int, k as int)]
                    + tokens_from(line@, k as int));
            }
            if !first {
                out.append(" ");
                proof {
                    reveal_strlit(" ");
                }
            }
            let masked = token_is_variable(&chars);
            if masked {
                out.append("<*>");
                proof {
                    reveal_strlit("<*>");
                }
            } else {
                let piece = line.substring_char(j, k);
                out.append(piece);
            }
            proof {
                let tv = line@.subrange(j as int, k as int);
                assert(toks.skip(emitted)[0] == mask_token(tv));
                assert(toks[emitted] == mask_token(tv));
                assert(toks.skip(emitted).skip(1) =~= toks.skip(emitted + 1));
                assert(tokens_from(line@, k as int).map_values(|t: Seq<char>| mask_token(t))
                    =~= toks.skip(emitted + 1));
                lemma_join_take(toks, emitted + 1);
                emitted = emitted + 1;
            }
            first = false;
            i = k;
        }
    }
    proof {
        assert(tokens_from(line@, n as int) =~= Seq::<Seq<char>>::empty());
        assert(emitted == toks.len());
        if toks.len() == 0 {
            assert(join_tokens(toks) =~= Seq::<char>::empty());
        } else {
            assert(toks.take(toks.len() as int) =~= toks);
        }
    }
    out
}

/// Joining one more token appends a space (between tokens) and the
/// token.
proof fn lemma_join_take(ts: Seq<Seq<char>>, m: int)
    requires
        1 <= m <= ts.len(),
    ensures
        m < ts.len() ==> join_tokens(ts.take(m)) + seq![' '] + ts[m] == join_tokens(ts.take(m + 1))
            + (if m + 1 < ts.len() {
            Seq::<char>::empty()
        } else {
            Seq::<char>::empty()
        }),
        join_tokens(ts.take(m)) == (if m == 1 {
            ts[0]
        } else {
            join_tokens(ts.take(m - 1)) + seq![' '] + ts[m - 1]
        }),
    decreases m,
{
    if m == 1 {
        assert(ts.take(1) =~= seq![ts[0]]);
        assert(join_tokens(seq![ts[0]]) == ts[0]);
    } else {
        lemma_join_take(ts, m - 1);
        lemma_join_snoc(ts.take(m));
        assert(ts.take(m).take(m - 1) =~= ts.take(m - 1));
        assert(ts.take(m).last() == ts[m - 1]);
    }
    if m < ts.len() {
        lemma_join_snoc(ts.take(m + 1));
        assert(ts.take(m + 1).take(m) =~= ts.take(m));
        assert(ts.take(m + 1).last() == ts[m]);
    }
}

/// Joining splits at the last token.
#[verifier::rlimit(60)]
proof fn lemma_join_snoc(ts: Seq<Seq<char>>)
    requires
        ts.len() >= 2,
    ensures
        join_tokens(ts) == join_tokens(ts.take(ts.len() - 1)) + seq![' '] + ts.last(),
    decreases ts.len(),
{
    if ts.len() == 2 {
        assert(ts.skip(1) =~= seq![ts[1]]);
        assert(ts.take(1) =~= seq![ts[0]]);
        assert(join_tokens(ts.skip(1)) == ts[1]);
        assert(join_tokens(ts) == ts[0] + seq![' '] + ts[1]);
    } else {
        lemma_join_snoc(ts.skip(1));
        assert(ts.skip(1).take(ts.skip(1).len() - 1) =~= ts.take(ts.len() - 1).skip(1));
        assert(ts.take(ts.len() - 1)[0] == ts[0]);
        assert(ts.take(ts.len() - 1).len() >= 2);
        assert(join_tokens(ts.take(ts.len() - 1)) == ts[0] + seq![' '] + join_tokens(
            ts.take(ts.len() - 1).skip(1),
        ));
        assert(ts.skip(1).last() == ts.last());
        assert(join_tokens(ts) == ts[0] + seq![' '] + join_tokens(ts.skip(1)));
        assert(ts[0] + seq![' '] + (join_tokens(ts.take(ts.len() - 1).skip(1)) + seq![' ']
            + ts.last()) =~= (ts[0] + seq![' '] + join_tokens(ts.take(ts.len() - 1).skip(1)))
            + seq![' '] + ts.last());
    }
}


/// One bucket while clustering: a signature with its count, sorted
/// source ids, and up to three sample lines.
pub struct BucketRep {
    pub template: Seq<char>,
    pub count: int,
    pub source_ids: Seq<u64>,
    pub sample_lines: Seq<Seq<char>>,
}

/// A source id inserted into a sorted id list, kept sorted and
/// without duplicates.
pub open spec fn insert_sid(sids: Seq<u64>, sid: u64) -> Seq<u64>
    decreases sids.len(),
{
    if sids.len() == 0 {
        seq![sid]
    } else if sid < sids[0] {
        seq![sid] + sids
    } else if sid == sids[0] {
        sids
    } else {
        seq![sids[0]] + insert_sid(sids.skip(1), sid)
    }
}

/// One line folded into the buckets: the first bucket with the line's
/// signature is bumped, or a new bucket appended.
pub open spec fn bucket_line(
    bs: Seq<BucketRep>,
    sig: Seq<char>,
    sid: u64,
    raw: Seq<char>,
) -> Seq<BucketRep>
    decreases bs.len(),
{
    if bs.len() == 0 {
        seq![
            BucketRep {
                template: sig,
                count: 1,
                source_ids: seq![sid],
                sample_lines: seq![raw],
            },
        ]
    } else if bs[0].template == sig {
        seq![
            BucketRep {
                template: bs[0].template,
                count: bs[0].count + 1,
                source_ids: insert_sid(bs[0].source_ids, sid),
                sample_lines: if bs[0].sample_lines.len() < 3 {
                    bs[0].sample_lines.push(raw)
                } else {
                    bs[0].sample_lines
                },
            },
        ] + bs.skip(1)
    } else {
        seq![bs[0]] + bucket_line(bs.skip(1), sig, sid, raw)
    }
}

/// All lines folded into buckets, in order.
pub open spec fn buckets_of(lines: Seq<LineRep>, n: int) -> Seq<BucketRep>
    decreases n,
{
    if n <= 0 {
        Seq::empty()
    } else {
        bucket_line(
            buckets_of(lines, n - 1),
            sig_of(lines[n - 1].content),
            lines[n - 1].source_id,
            lines[n - 1].raw,
        )
    }
}

/// The buckets with more than one line, in first-seen order.
pub open spec fn kept_buckets(bs: Seq<BucketRep>) -> Seq<BucketRep>
    decreases bs.len(),
{
    if bs.len() == 0 {
        Seq::empty()
    } else if bs[0].count > 1 {
        seq![bs[0]] + kept_buckets(bs.skip(1))
    } else {
        kept_buckets(bs.skip(1))
    }
}

/// How many buckets hold exactly one line.
pub open spec fn singleton_count(bs: Seq<BucketRep>) -> int
    decreases bs.len(),
{
    if bs.len() == 0 {
        0
    } else {
        (if bs[0].count == 1 {
            1int
        } else {
            0int
        }) + singleton_count(bs.skip(1))
    }
}

/// The total number of lines the buckets hold.
pub open spec fn sum_counts(bs: Seq<BucketRep>) -> int
    decreases bs.len(),
{
    if bs.len() == 0 {
        0
    } else {
        bs[0].count + sum_counts(bs.skip(1))
    }
}

/// A bucket inserted before the first strictly smaller count, keeping
/// the list sorted by descending count and stable for equal counts.
pub open spec fn insert_desc(acc: Seq<BucketRep>, b: BucketRep) -> Seq<BucketRep>
    decreases acc.len(),
{
    if acc.len() == 0 {
        seq![b]
    } else if acc[0].count < b.count {
        seq![b] + acc
    } else {
        seq![acc[0]] + insert_desc(acc.skip(1), b)
    }
}

/// The buckets sorted by descending count (stable insertion sort).
pub open spec fn sort_desc(bs: Seq<BucketRep>, n: int) -> Seq<BucketRep>
    decreases n,
{
    if n <= 0 {
        Seq::empty()
    } else {
        insert_desc(sort_desc(bs, n - 1), bs[n - 1])
    }
}

/// What clustering a line sequence yields: the lines bucketed by
/// masked signature, singletons dropped, sorted by descending count.
pub open spec fn clusters_spec(lines: Seq<LineRep>) -> Seq<BucketRep> {
    let kept = kept_buckets(buckets_of(lines, lines.len() as int));
    sort_desc(kept, kept.len() as int)
}

/// Folding one more line grows the total by exactly one.
#[verifier::rlimit(60)]
proof fn lemma_bucket_line_sum(bs: Seq<BucketRep>, sig: Seq<char>, sid: u64, raw: Seq<char>)
    ensures
        sum_counts(bucket_line(bs, sig, sid, raw)) == sum_counts(bs) + 1,
    decreases bs.len(),
{
    if bs.len() == 0 {
        let out = bucket_line(bs, sig, sid, raw);
        assert(out.skip(1) =~= Seq::<BucketRep>::empty());
        assert(out[0].count == 1);
        assert(sum_counts(Seq::<BucketRep>::empty()) == 0);
        assert(sum_counts(out) == out[0].count + sum_counts(out.skip(1)));
    } else if bs[0].template == sig {
        let out = bucket_line(bs, sig, sid, raw);
        assert(out.skip(1) =~= bs.skip(1));
    } else {
        lemma_bucket_line_sum(bs.skip(1), sig, sid, raw);
        let out = bucket_line(bs, sig, sid, raw);
        assert(out.skip(1) =~= bucket_line(bs.skip(1), sig, sid, raw));
    }
}

/// The buckets hold exactly the lines that went in.
proof fn lemma_buckets_sum(lines: Seq<LineRep>, n: int)
    requires
        0 <= n <= lines.len(),
    ensures
        sum_counts(buckets_of(lines, n)) == n,
    decreases n,
{
    if n > 0 {
        lemma_buckets_sum(lines, n - 1);
        lemma_bucket_line_sum(
            buckets_of(lines, n - 1),
            sig_of(lines[n - 1].content),
            lines[n - 1].source_id,
            lines[n - 1].raw,
        );
    }
}

/// Every bucket holds at least one line.
proof fn lemma_bucket_counts_pos(lines: Seq<LineRep>, n: int)
    requires
        0 <= n <= lines.len(),
    ensures
        forall|i: int|
            0 <= i < buckets_of(lines, n).len() ==> (#[trigger] buckets_of(lines, n)[i]).count
                >= 1,
    decreases n,
{
    if n > 0 {
        lemma_bucket_counts_pos(lines, n - 1);
        lemma_bucket_line_pos(
            buckets_of(lines, n - 1),
            sig_of(lines[n - 1].content),
            lines[n - 1].source_id,
            lines[n - 1].raw,
        );
    }
}

proof fn lemma_bucket_line_pos(bs: Seq<BucketRep>, sig: Seq<char>, sid: u64, raw: Seq<char>)
    requires
        forall|i: int| 0 <= i < bs.len() ==> (#[trigger] bs[i]).count >= 1,
    ensures
        forall|i: int|
            0 <= i < bucket_line(bs, sig, sid, raw).len() ==> (#[trigger] bucket_line(
                bs,
                sig,
                sid,
                raw,
            )[i]).count >= 1,
    decreases bs.len(),
{
    if bs.len() == 0 {
    } else if bs[0].template == sig {
        let out = bucket_line(bs, sig, sid, raw);
        assert(out.skip(1) =~= bs.skip(1));
        assert forall|i: int| 0 <= i < out.len() implies (#[trigger] out[i]).count >= 1 by {
            if i > 0 {
                assert(out[i] == bs[i]);
            }
        }
    } else {
        assert(forall|i: int| 0 <= i < bs.skip(1).len() ==> (#[trigger] bs.skip(1)[i]).count >= 1);
        lemma_bucket_line_pos(bs.skip(1), sig, sid, raw);
        let out = bucket_line(bs, sig, sid, raw);
        assert(out.skip(1) =~= bucket_line(bs.skip(1), sig, sid, raw));
        assert forall|i: int| 0 <= i < out.len() implies (#[trigger] out[i]).count >= 1 by {
            if i > 0 {
                assert(out[i] == bucket_line(bs.skip(1), sig, sid, raw)[i - 1]);
            }
        }
    }
}

/// Dropping the singletons splits the total: the kept counts plus one
/// line per singleton bucket.
proof fn lemma_kept_plus_singletons(bs: Seq<BucketRep>)
    requires
        forall|i: int| 0 <= i < bs.len() ==> (#[trigger] bs[i]).count >= 1,
    ensures
        sum_counts(kept_buckets(bs)) + singleton_count(bs) == sum_counts(bs),
    decreases bs.len(),
{
    if bs.len() > 0 {
        assert(forall|i: int| 0 <= i < bs.skip(1).len() ==> (#[trigger] bs.skip(1)[i]).count >= 1);
        lemma_kept_plus_singletons(bs.skip(1));
        if bs[0].count > 1 {
            assert(kept_buckets(bs).skip(1) =~= kept_buckets(bs.skip(1)));
        }
    }
}

/// Sorting keeps the total.
proof fn lemma_sort_sum(bs: Seq<BucketRep>, n: int)
    requires
        0 <= n <= bs.len(),
    ensures
        sum_counts(sort_desc(bs, n)) == sum_counts(bs.take(n)),
    decreases n,
{
    if n > 0 {
        lemma_sort_sum(bs, n - 1);
        lemma_insert_sum(sort_desc(bs, n - 1), bs[n - 1]);
        lemma_sum_snoc(bs.take(n));
        assert(bs.take(n).drop_last() =~= bs.take(n - 1));
    }
}

#[verifier::rlimit(60)]
proof fn lemma_insert_sum(acc: Seq<BucketRep>, b: BucketRep)
    ensures
        sum_counts(insert_desc(acc, b)) == sum_counts(acc) + b.count,
    decreases acc.len(),
{
    let out = insert_desc(acc, b);
    if acc.len() == 0 {
        assert(out.skip(1) =~= Seq::<BucketRep>::empty());
        assert(out[0] == b);
        assert(sum_counts(Seq::<BucketRep>::empty()) == 0);
        assert(sum_counts(out) == out[0].count + sum_counts(out.skip(1)));
    } else if acc[0].count < b.count {
        assert(out.skip(1) =~= acc);
        assert(out[0] == b);
    } else {
        lemma_insert_sum(acc.skip(1), b);
        assert(out.skip(1) =~= insert_desc(acc.skip(1), b));
        assert(out[0] == acc[0]);
    }
}

proof fn lemma_sum_snoc(bs: Seq<BucketRep>)
    requires
        bs.len() >= 1,
    ensures
        sum_counts(bs) == sum_counts(bs.drop_last()) + bs.last().count,
    decreases bs.len(),
{
    if bs.len() > 1 {
        lemma_sum_snoc(bs.skip(1));
        assert(bs.skip(1).drop_last() =~= bs.drop_last().skip(1));
    } else {
        assert(bs.drop_last() =~= Seq::<BucketRep>::empty());
        assert(bs.skip(1) =~= Seq::<BucketRep>::empty());
    }
}

/// The kept clusters and the dropped singletons together account for
/// every clustered line: the sum of the emitted counts plus the
/// number of singleton buckets equals the number of lines.
pub proof fn lemma_cluster_totals(lines: Seq<LineRep>)
    ensures
        sum_counts(clusters_spec(lines)) + singleton_count(
            buckets_of(lines, lines.len() as int),
        ) == lines.len(),
{
    let bs = buckets_of(lines, lines.len() as int);
    lemma_buckets_sum(lines, lines.len() as int);
    lemma_bucket_counts_pos(lines, lines.len() as int);
    lemma_kept_plus_singletons(bs);
    let kept = kept_buckets(bs);
    lemma_sort_sum(kept, kept.len() as int);
    assert(kept.take(kept.len() as int) =~= kept);
}


/// A bucket list's entry is at most the total.
proof fn lemma_sum_ge_each(bs: Seq<BucketRep>, i: int)
    requires
        forall|j: int| 0 <= j < bs.len() ==> (#[trigger] bs[j]).count >= 1,
        0 <= i < bs.len(),
    ensures
        bs[i].count <= sum_counts(bs),
    decreases bs.len(),
{
    if i == 0 {
        lemma_sum_nonneg(bs.skip(1));
    } else {
        assert(forall|j: int| 0 <= j < bs.skip(1).len() ==> (#[trigger] bs.skip(1)[j]).count >= 1);
        lemma_sum_ge_each(bs.skip(1), i - 1);
    }
}

proof fn lemma_sum_nonneg(bs: Seq<BucketRep>)
    requires
        forall|j: int| 0 <= j < bs.len() ==> (#[trigger] bs[j]).count >= 1,
    ensures
        sum_counts(bs) >= 0,
    decreases bs.len(),
{
    if bs.len() > 0 {
        assert(forall|j: int| 0 <= j < bs.skip(1).len() ==> (#[trigger] bs.skip(1)[j]).count >= 1);
        lemma_sum_nonneg(bs.skip(1));
    }
}

/// Bumping the first bucket that carries the signature is a pointwise
/// update.
proof fn lemma_bucket_line_at(
    bs: Seq<BucketRep>,
    k: int,
    sig: Seq<char>,
    sid: u64,
    raw: Seq<char>,
)
    requires
        0 <= k < bs.len(),
        bs[k].template == sig,
        forall|j: int| 0 <= j < k ==> (#[trigger] bs[j]).template != sig,
    ensures
        bucket_line(bs, sig, sid, raw) == bs.update(
            k,
            BucketRep {
                template: bs[k].template,
                count: bs[k].count + 1,
                source_ids: insert_sid(bs[k].source_ids, sid),
                sample_lines: if bs[k].sample_lines.len() < 3 {
                    bs[k].sample_lines.push(raw)
                } else {
                    bs[k].sample_lines
                },
            },
        ),
    decreases bs.len(),
{
    if k == 0 {
        assert(bucket_line(bs, sig, sid, raw) =~= bs.update(
            0,
            BucketRep {
                template: bs[0].template,
                count: bs[0].count + 1,
                source_ids: insert_sid(bs[0].source_ids, sid),
                sample_lines: if bs[0].sample_lines.len() < 3 {
                    bs[0].sample_lines.push(raw)
                } else {
                    bs[0].sample_lines
                },
            },
        ));
    } else {
        assert(forall|j: int|
            0 <= j < k - 1 ==> (#[trigger] bs.skip(1)[j]).template != sig);
        assert(bs.skip(1)[k - 1] == bs[k]);
        lemma_bucket_line_at(bs.skip(1), k - 1, sig, sid, raw);
        assert(bucket_line(bs, sig, sid, raw) =~= bs.update(
            k,
            BucketRep {
                template: bs[k].template,
                count: bs[k].count + 1,
                source_ids: insert_sid(bs[k].source_ids, sid),
                sample_lines: if bs[k].sample_lines.len() < 3 {
                    bs[k].sample_lines.push(raw)
                } else {
                    bs[k].sample_lines
                },
            },
        ));
    }
}

/// A fresh signature appends a new bucket.
proof fn lemma_bucket_line_new(bs: Seq<BucketRep>, sig: Seq<char>, sid: u64, raw: Seq<char>)
    requires
        forall|j: int| 0 <= j < bs.len() ==> (#[trigger] bs[j]).template != sig,
    ensures
        bucket_line(bs, sig, sid, raw) == bs.push(
            BucketRep { template: sig, count: 1, source_ids: seq![sid], sample_lines: seq![raw] },
        ),
    decreases bs.len(),
{
    if bs.len() == 0 {
        assert(bucket_line(bs, sig, sid, raw) =~= bs.push(
            BucketRep { template: sig, count: 1, source_ids: seq![sid], sample_lines: seq![raw] },
        ));
    } else {
        assert(forall|j: int|
            0 <= j < bs.skip(1).len() ==> (#[trigger] bs.skip(1)[j]).template != sig);
        lemma_bucket_line_new(bs.skip(1), sig, sid, raw);
        assert(bucket_line(bs, sig, sid, raw) =~= bs.push(
            BucketRep { template: sig, count: 1, source_ids: seq![sid], sample_lines: seq![raw] },
        ));
    }
}

/// Inserting into a sorted id list at the first position that is not
/// smaller.
proof fn lemma_insert_sid_at(sids: Seq<u64>, sid: u64, p: int)
    requires
        0 <= p <= sids.len(),
        forall|j: int| 0 <= j < p ==> (#[trigger] sids[j]) < sid,
        p < sids.len() ==> sids[p] >= sid,
    ensures
        insert_sid(sids, sid) == if p < sids.len() && sids[p] == sid {
            sids
        } else {
            sids.take(p) + seq![sid] + sids.skip(p)
        },
    decreases sids.len(),
{
    if sids.len() == 0 {
        assert(insert_sid(sids, sid) =~= sids.take(0) + seq![sid] + sids.skip(0));
    } else if p == 0 {
        if sids[0] == sid {
        } else {
            assert(insert_sid(sids, sid) =~= sids.take(0) + seq![sid] + sids.skip(0));
        }
    } else {
        assert(sids[0] < sid);
        assert(forall|j: int| 0 <= j < p - 1 ==> (#[trigger] sids.skip(1)[j]) < sid);
        assert(p - 1 < sids.skip(1).len() ==> sids.skip(1)[p - 1] >= sid);
        lemma_insert_sid_at(sids.skip(1), sid, p - 1);
        if p < sids.len() && sids[p] == sid {
            assert(sids.skip(1)[p - 1] == sid);
            assert(insert_sid(sids, sid) =~= sids);
        } else {
            assert(insert_sid(sids, sid) =~= sids.take(p) + seq![sid] + sids.skip(p));
        }
    }
}

/// Inserts a source id into a sorted list, keeping it sorted and
/// without duplicates (`insert_sid`).
fn insert_sid_exec(sids: &mut Vec<u64>, sid: u64)
    ensures
        final(sids)@ == insert_sid(old(sids)@, sid),
{
    let n = sids.len();
    let mut p: usize = 0;
    while p < n && sids[p] < sid
        invariant
            p <= n,
            n == sids@.len(),
            forall|j: int| 0 <= j < p ==> (#[trigger] sids@[j]) < sid,
        decreases n - p,
    {
        p = p + 1;
    }
    proof {
        lemma_insert_sid_at(sids@, sid, p as int);
    }
    if p < n && sids[p] == sid {
        return ;
    }
    let ghost s0 = sids@;
    sids.insert(p, sid);
    proof {
        assert(sids@ =~= s0.take(p as int) + seq![sid] + s0.skip(p as int));
    }
}

/// The bucket model of a cluster record.
pub open spec fn bucket_view(c: LogCluster) -> BucketRep {
    BucketRep {
        template: c.template@,
        count: c.count as int,
        source_ids: c.source_ids@,
        sample_lines: c.sample_lines@.map_values(|s: String| s@),
    }
}

/// Clusters parsed lines by masked signature: buckets in first-seen
/// order, singletons dropped, sorted by descending count
/// (`clusters_spec`), with the total line count.
#[verifier::rlimit(60)]
pub fn cluster_lines(lines: &Vec<LogLine>) -> (r: ClusterResult)
    ensures
        r.clusters@.map_values(|c: LogCluster| bucket_view(c)) == clusters_spec(
            lines@.map_values(|l: LogLine| l@),
        ),
        r.total_lines as int == lines@.len(),
{
    let ghost lv = lines@.map_values(|l: LogLine| l@);
    let n = lines.len();
    let mut buckets: Vec<LogCluster> = Vec::new();
    let mut i: usize = 0;
    proof {
        assert(buckets@.map_values(|c: LogCluster| bucket_view(c)) =~= buckets_of(lv, 0));
    }
    while i < n
        invariant
            i <= n,
            n == lines@.len(),
            lv == lines@.map_values(|l: LogLine| l@),
            buckets@.map_values(|c: LogCluster| bucket_view(c)) == buckets_of(lv, i as int),
        decreases n - i,
    {
        let ghost bs = buckets@.map_values(|c: LogCluster| bucket_view(c));
        proof {
            lemma_bucket_counts_pos(lv, i as int);
            lemma_buckets_sum(lv, i as int);
        }
        let line = &lines[i];
        let sig = tokenize(line.content.as_str());
        let m = buckets.len();
        let mut k: usize = 0;
        let mut found = false;
        while k < m
            invariant_except_break
                k <= m,
                !found,
                forall|j: int| 0 <= j < k ==> (#[trigger] buckets@[j]).template@ != sig@,
            invariant
                m == buckets@.len(),
                buckets@.map_values(|c: LogCluster| bucket_view(c)) == bs,
            ensures
                (found && k < m && buckets@[k as int].template@ == sig@ && forall|j: int|
                    0 <= j < k ==> (#[trigger] buckets@[j]).template@ != sig@) || (!found && forall|
                    j: int,
                |
                    0 <= j < m ==> (#[trigger] buckets@[j]).template@ != sig@),
            decreases m - k,
        {
            if crate::text::str_eq(buckets[k].template.as_str(), sig.as_str()) {
                found = true;
                break ;
            }
            k = k + 1;
        }
        if found {
            proof {
                assert(bs[k as int].template == sig@);
                assert(forall|j: int| 0 <= j < k ==> (#[trigger] bs[j]).template != sig@);
                lemma_bucket_line_at(bs, k as int, sig@, line.source_id, line.raw@);
                lemma_sum_ge_each(bs, k as int);
            }
            let ghost b0 = bs[k as int];
            let mut b = buckets.remove(k);
            proof {
                assert(bucket_view(b) == b0);
                assert(b.count as int <= i as int);
            }
            b.count = b.count + 1;
            insert_sid_exec(&mut b.source_ids, line.source_id);
            if b.sample_lines.len() < 3 {
                let ghost sl0 = b.sample_lines@.map_values(|s: String| s@);
                b.sample_lines.push(line.raw.clone());
                proof {
                    assert(b.sample_lines@.map_values(|s: String| s@) =~= sl0.push(
                        lv[i as int].raw,
                    ));
                }
            }
            proof {
                assert(bucket_view(b) == BucketRep {
                    template: b0.template,
                    count: b0.count + 1,
                    source_ids: insert_sid(b0.source_ids, lv[i as int].source_id),
                    sample_lines: if b0.sample_lines.len() < 3 {
                        b0.sample_lines.push(lv[i as int].raw)
                    } else {
                        b0.sample_lines
                    },
                });
            }
            buckets.insert(k, b);
            proof {
                assert(buckets@.map_values(|c: LogCluster| bucket_view(c)) =~= bs.update(
                    k as int,
                    BucketRep {
                        template: b0.template,
                        count: b0.count + 1,
                        source_ids: insert_sid(b0.source_ids, lv[i as int].source_id),
                        sample_lines: if b0.sample_lines.len() < 3 {
                            b0.sample_lines.push(lv[i as int].raw)
                        } else {
                            b0.sample_lines
                        },
                    },
                ));
                assert(buckets@.map_values(|c: LogCluster| bucket_view(c)) =~= bucket_line(
                    bs,
                    sig@,
                    lv[i as int].source_id,
                    lv[i as int].raw,
                ));
            }
        } else {
            proof {
                assert(forall|j: int| 0 <= j < m ==> (#[trigger] bs[j]).template != sig@);
                lemma_bucket_line_new(bs, sig@, line.source_id, line.raw@);
            }
            let mut sids: Vec<u64> = Vec::new();
            sids.push(line.source_id);
            let mut samples: Vec<String> = Vec::new();
            samples.push(line.raw.clone());
            let b = LogCluster { template: sig, count: 1, source_ids: sids, sample_lines: samples };
            proof {
                assert(bucket_view(b).sample_lines =~= seq![lv[i as int].raw]);
                assert(bucket_view(b).source_ids =~= seq![lv[i as int].source_id]);
            }
            buckets.push(b);
            proof {
                assert(buckets@.map_values(|c: LogCluster| bucket_view(c)) =~= bucket_line(
                    bs,
                    sig@,
                    lv[i as int].source_id,
                    lv[i as int].raw,
                ));
            }
        }
        i = i + 1;
    }
    // drop singletons and sort by descending count
    let ghost allb = buckets@.map_values(|c: LogCluster| bucket_view(c));
    let ghost keptb = kept_buckets(allb);
    let mut out: Vec<LogCluster> = Vec::new();
    let mut buckets = buckets;
    let ghost mut kdone: int = 0;
    proof {
        assert(out@.map_values(|c: LogCluster| bucket_view(c)) =~= sort_desc(keptb, 0));
        assert(allb.skip(0) =~= allb);
    }
    while buckets.len() > 0
        invariant
            0 <= kdone <= keptb.len(),
            keptb == kept_buckets(allb),
            keptb.skip(kdone) == kept_buckets(
                buckets@.map_values(|c: LogCluster| bucket_view(c)),
            ),
            out@.map_values(|c: LogCluster| bucket_view(c)) == sort_desc(keptb, kdone),
        decreases buckets@.len(),
    {
        let ghost bv = buckets@.map_values(|c: LogCluster| bucket_view(c));
        let b = buckets.remove(0);
        proof {
            assert(buckets@.map_values(|c: LogCluster| bucket_view(c)) =~= bv.skip(1));
            assert(bucket_view(b) == bv[0]);
        }
        if b.count > 1 {
            proof {
                assert(kept_buckets(bv)[0] == bv[0]);
                assert(kept_buckets(bv).skip(1) =~= kept_buckets(bv.skip(1)));
                assert(keptb[kdone] == bv[0]);
                assert(keptb.skip(kdone).skip(1) =~= keptb.skip(kdone + 1));
                lemma_sort_step(keptb, kdone);
            }
            // insert into the sorted output
            let ghost ov = out@.map_values(|c: LogCluster| bucket_view(c));
            let on = out.len();
            let mut p: usize = 0;
            while p < on && out[p].count >= b.count
                invariant
                    p <= on,
                    on == out@.len(),
                    forall|j: int| 0 <= j < p ==> (#[trigger] out@[j]).count >= b.count,
                decreases on - p,
            {
                p = p + 1;
            }
            proof {
                lemma_insert_desc_at(ov, bucket_view(b), p as int);
            }
            out.insert(p, b);
            proof {
                assert(out@.map_values(|c: LogCluster| bucket_view(c)) =~= ov.take(p as int)
                    + seq![keptb[kdone]] + ov.skip(p as int));
                kdone = kdone + 1;
            }
        } else {
            proof {
                assert(kept_buckets(bv) =~= kept_buckets(bv.skip(1)));
            }
        }
    }
    proof {
        assert(kept_buckets(Seq::<BucketRep>::empty()) =~= Seq::<BucketRep>::empty());
        assert(kdone == keptb.len());
    }
    let total = lines.len() as u64;
    ClusterResult { clusters: out, total_lines: total }
}

/// One sort step appends by sorted insertion.
proof fn lemma_sort_step(keptb: Seq<BucketRep>, k: int)
    requires
        0 <= k < keptb.len(),
    ensures
        sort_desc(keptb, k + 1) == insert_desc(sort_desc(keptb, k), keptb[k]),
{
}

/// Inserting before the first smaller count realizes `insert_desc`.
proof fn lemma_insert_desc_at(acc: Seq<BucketRep>, b: BucketRep, p: int)
    requires
        0 <= p <= acc.len(),
        forall|j: int| 0 <= j < p ==> (#[trigger] acc[j]).count >= b.count,
        p < acc.len() ==> acc[p].count < b.count,
    ensures
        insert_desc(acc, b) == acc.take(p) + seq![b] + acc.skip(p),
    decreases acc.len(),
{
    if acc.len() == 0 {
        assert(insert_desc(acc, b) =~= acc.take(0) + seq![b] + acc.skip(0));
    } else if p == 0 {
        if acc[0].count < b.count {
            assert(insert_desc(acc, b) =~= acc.take(0) + seq![b] + acc.skip(0));
        } else {
            assert(acc[p].count < b.count);
        }
    } else {
        assert(acc[0].count >= b.count);
        assert(forall|j: int| 0 <= j < p - 1 ==> (#[trigger] acc.skip(1)[j]).count >= b.count);
        assert(p - 1 < acc.skip(1).len() ==> acc.skip(1)[p - 1].count < b.count);
        lemma_insert_desc_at(acc.skip(1), b, p - 1);
        assert(insert_desc(acc, b) =~= acc.take(p) + seq![b] + acc.skip(p));
    }
}


/// The number of live heads.
pub open spec fn live_heads(heads: Seq<Option<LineRep>>, i: int) -> int
    decreases i,
{
    if i <= 0 {
        0
    } else {
        live_heads(heads, i - 1) + (if heads[i - 1] is Some {
            1int
        } else {
            0int
        })
    }
}

/// The number of entries still behind the heads.
pub open spec fn rem_total(rems: Seq<Seq<Result<LineRep, crate::lines::EntryErr>>>, i: int) -> int
    decreases i,
{
    if i <= 0 {
        0
    } else {
        rem_total(rems, i - 1) + rems[i - 1].len()
    }
}

proof fn lemma_live_heads_update(heads: Seq<Option<LineRep>>, p: int, h: Option<LineRep>, i: int)
    requires
        0 <= p < heads.len(),
        i <= heads.len(),
    ensures
        live_heads(heads.update(p, h), i) == live_heads(heads, i) + if i <= p {
            0int
        } else {
            (if h is Some {
                1int
            } else {
                0int
            }) - (if heads[p] is Some {
                1int
            } else {
                0int
            })
        },
    decreases i,
{
    if i > 0 {
        lemma_live_heads_update(heads, p, h, i - 1);
        if i - 1 == p {
            assert(heads.update(p, h)[p] == h);
        } else {
            assert(heads.update(p, h)[i - 1] == heads[i - 1]);
        }
    }
}

proof fn lemma_rem_total_update(
    rems: Seq<Seq<Result<LineRep, crate::lines::EntryErr>>>,
    p: int,
    v: Seq<Result<LineRep, crate::lines::EntryErr>>,
    i: int,
)
    requires
        0 <= p < rems.len(),
        i <= rems.len(),
    ensures
        rem_total(rems.update(p, v), i) == rem_total(rems, i) + if i <= p {
            0int
        } else {
            v.len() - rems[p].len()
        },
    decreases i,
{
    if i > 0 {
        lemma_rem_total_update(rems, p, v, i - 1);
        if i - 1 == p {
            assert(rems.update(p, v)[p] == v);
        } else {
            assert(rems.update(p, v)[i - 1] == rems[i - 1]);
        }
    }
}

proof fn lemma_live_heads_nonneg(heads: Seq<Option<LineRep>>, i: int)
    ensures
        live_heads(heads, i) >= 0,
    decreases i,
{
    if i > 0 {
        lemma_live_heads_nonneg(heads, i - 1);
    }
}

proof fn lemma_rem_total_nonneg(rems: Seq<Seq<Result<LineRep, crate::lines::EntryErr>>>, i: int)
    ensures
        rem_total(rems, i) >= 0,
    decreases i,
{
    if i > 0 {
        lemma_rem_total_nonneg(rems, i - 1);
    }
}

/// The lines the merged stream yields inside the time range, in
/// order: the earliest head goes out, its source is refilled, a
/// refill failure ends the stream with that error, a line after the
/// end bound stops it, and lines before the start bound are skipped.
pub open spec fn collect_stream(
    heads: Seq<Option<LineRep>>,
    rems: Seq<Seq<Result<LineRep, crate::lines::EntryErr>>>,
    range: crate::driver::TimeRange,
) -> Result<Seq<LineRep>, crate::lines::EntryErr>
    decreases live_heads(heads, heads.len() as int) + rem_total(rems, rems.len() as int),
    via collect_stream_dec
{
    let p = crate::merge::pick(crate::merge::line_head_ts(heads));
    if !(heads.len() == rems.len()) || p < 0 || p >= heads.len() || !(heads[p] is Some) {
        Ok(Seq::empty())
    } else {
        let line = heads[p]->Some_0;
        let rem = rems[p];
        if rem.len() > 0 && rem[0] is Err {
            Err(rem[0]->Err_0)
        } else {
            let heads2 = if rem.len() == 0 {
                heads.update(p, None)
            } else {
                heads.update(p, Some(rem[0]->Ok_0))
            };
            let rems2 = if rem.len() == 0 {
                rems
            } else {
                rems.update(p, rem.skip(1))
            };
            if !crate::driver::after_start(range, line.timestamp) {
                collect_stream(heads2, rems2, range)
            } else if !crate::driver::before_end(range, line.timestamp) {
                Ok(Seq::empty())
            } else {
                match collect_stream(heads2, rems2, range) {
                    Ok(ls) => Ok(seq![line] + ls),
                    Err(e) => Err(e),
                }
            }
        }
    }
}

#[via_fn]
proof fn collect_stream_dec(
    heads: Seq<Option<LineRep>>,
    rems: Seq<Seq<Result<LineRep, crate::lines::EntryErr>>>,
    range: crate::driver::TimeRange,
) {
    let p = crate::merge::pick(crate::merge::line_head_ts(heads));
    if heads.len() == rems.len() && 0 <= p < heads.len() && heads[p] is Some {
        let rem = rems[p];
        lemma_live_heads_nonneg(heads, heads.len() as int);
        lemma_rem_total_nonneg(rems, rems.len() as int);
        if rem.len() == 0 {
            lemma_live_heads_update(heads, p, None, heads.len() as int);
        } else if rem[0] is Ok {
            lemma_live_heads_update(heads, p, Some(rem[0]->Ok_0), heads.len() as int);
            lemma_rem_total_update(rems, p, rem.skip(1), rems.len() as int);
        }
        lemma_live_heads_nonneg(
            if rem.len() == 0 {
                heads.update(p, None)
            } else {
                heads.update(p, Some(rem[0]->Ok_0))
            },
            heads.len() as int,
        );
        lemma_rem_total_nonneg(
            if rem.len() == 0 {
                rems
            } else {
                rems.update(p, rem.skip(1))
            },
            rems.len() as int,
        );
    }
}




/// Chronological merge order for the collected stream: when every
/// source is sorted by timestamp, the lines `collect_stream` yields
/// are non-decreasing, and none is earlier than the head the merge
/// pops first.
pub proof fn lemma_collect_sorted(
    heads: Seq<Option<LineRep>>,
    rems: Seq<Seq<Result<LineRep, crate::lines::EntryErr>>>,
    range: crate::driver::TimeRange,
)
    requires
        crate::merge::stream_sorted(heads, rems),
    ensures
        collect_stream(heads, rems, range) matches Ok(ls) ==> crate::merge::ts_sorted(
            ls.map_values(|l: LineRep| l.timestamp),
        ),
        ({
            let p = crate::merge::pick(crate::merge::line_head_ts(heads));
            let res = collect_stream(heads, rems, range);
            res is Ok && p >= 0 ==> forall|k: int|
                0 <= k < res->Ok_0.len() ==> heads[p]->Some_0.timestamp.spec_le(
                    (#[trigger] res->Ok_0[k]).timestamp,
                )
        }),
    decreases live_heads(heads, heads.len() as int) + rem_total(rems, rems.len() as int),
{
    let p = crate::merge::pick(crate::merge::line_head_ts(heads));
    if heads.len() == rems.len() && 0 <= p < heads.len() && heads[p] is Some {
        crate::merge::lemma_pick_in_range_pub(crate::merge::line_head_ts(heads));
        let popped = heads[p]->Some_0;
        let rem = rems[p];
        if rem.len() > 0 && rem[0] is Err {
        } else {
            let heads2 = if rem.len() == 0 {
                heads.update(p, None)
            } else if rem[0] is Ok {
                heads.update(p, Some(rem[0]->Ok_0))
            } else {
                heads.update(p, None)
            };
            let rems2 = if rem.len() == 0 {
                rems
            } else {
                rems.update(p, rem.skip(1))
            };
            crate::merge::lemma_stream_step_monotone(heads, rems, heads2, rems2);
            lemma_live_heads_nonneg(heads, heads.len() as int);
            lemma_rem_total_nonneg(rems, rems.len() as int);
            if rem.len() == 0 {
                lemma_live_heads_update(heads, p, None, heads.len() as int);
            } else if rem[0] is Ok {
                lemma_live_heads_update(heads, p, Some(rem[0]->Ok_0), heads.len() as int);
                lemma_rem_total_update(rems, p, rem.skip(1), rems.len() as int);
            }
            lemma_live_heads_nonneg(heads2, heads2.len() as int);
            lemma_rem_total_nonneg(rems2, rems2.len() as int);
            lemma_collect_sorted(heads2, rems2, range);
            let p2 = crate::merge::pick(crate::merge::line_head_ts(heads2));
            if collect_stream(heads2, rems2, range) is Ok {
                let rest = collect_stream(heads2, rems2, range)->Ok_0;
                if p2 >= 0 {
                    crate::merge::lemma_pick_in_range_pub(crate::merge::line_head_ts(heads2));
                    assert(heads2[p2] is Some);
                    assert(popped.timestamp.spec_le(heads2[p2]->Some_0.timestamp));
                }
                assert forall|k: int|
                    0 <= k < rest.len() implies popped.timestamp.spec_le(
                    (#[trigger] rest[k]).timestamp,
                ) by {
                    assert(p2 >= 0);
                    assert(heads2[p2]->Some_0.timestamp.spec_le(rest[k].timestamp));
                }
                if crate::driver::after_start(range, popped.timestamp) && crate::driver::before_end(
                    range,
                    popped.timestamp,
                ) {
                    let ls = collect_stream(heads, rems, range)->Ok_0;
                    assert(ls == seq![popped] + rest);
                    let ts = ls.map_values(|l: LineRep| l.timestamp);
                    let rts = rest.map_values(|l: LineRep| l.timestamp);
                    assert(forall|k: int| 0 <= k < rts.len() ==> ts[k + 1] == #[trigger] rts[k]);
                    assert(ts[0] == popped.timestamp);
                    assert forall|a: int, b: int|
                        0 <= a <= b < ts.len() implies (#[trigger] ts[a]).spec_le(
                        #[trigger] ts[b],
                    ) by {
                        if a == 0 {
                            if b > 0 {
                                assert(popped.timestamp.spec_le(rest[b - 1].timestamp));
                            }
                        } else {
                            assert(rts[a - 1].spec_le(rts[b - 1]));
                        }
                    }
                }
            }
        }
    }
}

/// The parse entries of one source under its looked-up templates;
/// meaningful when both templates exist.
pub open spec fn cluster_entries(
    sources: Seq<crate::model::Source>,
    templates: Seq<crate::model::SourceTemplate>,
    ts_templates: Seq<crate::model::TimestampTemplate>,
    texts: Seq<Seq<char>>,
    i: int,
) -> Seq<Result<LineRep, crate::lines::EntryErr>> {
    let ti = crate::driver::find_last_template(templates, sources[i].template_id)->Some_0;
    let tsi = crate::driver::find_last_ts_template(
        ts_templates,
        templates[ti].timestamp_template_id,
    )->Some_0;
    crate::driver::entries_of(sources[i], templates[ti], ts_templates[tsi], texts[i])
}

/// Why one source cannot be set up for clustering.
pub enum ClusterSetupFail {
    /// Its template or timestamp template is missing.
    MissingTemplate,
    /// One of its template's regexes does not compile.
    BadRegex,
}

/// The setup failure of one source, if any.
pub open spec fn cluster_setup_failure(
    sources: Seq<crate::model::Source>,
    templates: Seq<crate::model::SourceTemplate>,
    ts_templates: Seq<crate::model::TimestampTemplate>,
    i: int,
) -> Option<ClusterSetupFail> {
    match crate::driver::find_last_template(templates, sources[i].template_id) {
        None => Some(ClusterSetupFail::MissingTemplate),
        Some(ti) => match crate::driver::find_last_ts_template(
            ts_templates,
            templates[ti].timestamp_template_id,
        ) {
            None => Some(ClusterSetupFail::MissingTemplate),
            Some(tsi) => if !crate::lines::source_regexes_valid(templates[ti], ts_templates[tsi]) {
                Some(ClusterSetupFail::BadRegex)
            } else {
                None
            },
        },
    }
}

/// The first setup failure, scanning the sources in order.
pub open spec fn first_cluster_setup_failure(
    sources: Seq<crate::model::Source>,
    templates: Seq<crate::model::SourceTemplate>,
    ts_templates: Seq<crate::model::TimestampTemplate>,
    n: int,
) -> Option<ClusterSetupFail>
    decreases n,
{
    if n <= 0 {
        None
    } else {
        match first_cluster_setup_failure(sources, templates, ts_templates, n - 1) {
            Some(f) => Some(f),
            None => cluster_setup_failure(sources, templates, ts_templates, n - 1),
        }
    }
}

/// The parse failure of a source's first entry, if any.
pub open spec fn bad_head(
    sources: Seq<crate::model::Source>,
    templates: Seq<crate::model::SourceTemplate>,
    ts_templates: Seq<crate::model::TimestampTemplate>,
    texts: Seq<Seq<char>>,
    i: int,
) -> Option<crate::lines::EntryErr> {
    let entries = cluster_entries(sources, templates, ts_templates, texts, i);
    if entries.len() > 0 && entries[0] is Err {
        Some(entries[0]->Err_0)
    } else {
        None
    }
}

/// The first source whose first entry fails to parse, scanning in
/// order (meaningful once every source sets up).
pub open spec fn first_bad_head(
    sources: Seq<crate::model::Source>,
    templates: Seq<crate::model::SourceTemplate>,
    ts_templates: Seq<crate::model::TimestampTemplate>,
    texts: Seq<Seq<char>>,
    n: int,
) -> Option<crate::lines::EntryErr>
    decreases n,
{
    if n <= 0 {
        None
    } else {
        match first_bad_head(sources, templates, ts_templates, texts, n - 1) {
            Some(k) => Some(k),
            None => bad_head(sources, templates, ts_templates, texts, n - 1),
        }
    }
}

/// The initial merge heads: each source's first entry, or nothing.
pub open spec fn init_heads(
    sources: Seq<crate::model::Source>,
    templates: Seq<crate::model::SourceTemplate>,
    ts_templates: Seq<crate::model::TimestampTemplate>,
    texts: Seq<Seq<char>>,
) -> Seq<Option<LineRep>> {
    Seq::new(
        sources.len(),
        |i: int|
            {
                let entries = cluster_entries(sources, templates, ts_templates, texts, i);
                if entries.len() == 0 {
                    None
                } else {
                    Some(entries[0]->Ok_0)
                }
            },
    )
}

/// The entries behind the initial heads.
pub open spec fn init_rems(
    sources: Seq<crate::model::Source>,
    templates: Seq<crate::model::SourceTemplate>,
    ts_templates: Seq<crate::model::TimestampTemplate>,
    texts: Seq<Seq<char>>,
) -> Seq<Seq<Result<LineRep, crate::lines::EntryErr>>> {
    Seq::new(
        sources.len(),
        |i: int|
            {
                let entries = cluster_entries(sources, templates, ts_templates, texts, i);
                if entries.len() == 0 {
                    entries
                } else {
                    entries.skip(1)
                }
            },
    )
}

/// A setup failure at one source, with every earlier source clean, is
/// the first.
proof fn lemma_first_setup_at(
    sources: Seq<crate::model::Source>,
    templates: Seq<crate::model::SourceTemplate>,
    ts_templates: Seq<crate::model::TimestampTemplate>,
    k: int,
    n: int,
)
    requires
        0 <= k < n <= sources.len(),
        forall|j: int|
            0 <= j < k ==> cluster_setup_failure(sources, templates, ts_templates, j) is None,
        cluster_setup_failure(sources, templates, ts_templates, k) is Some,
    ensures
        first_cluster_setup_failure(sources, templates, ts_templates, n) == cluster_setup_failure(
            sources,
            templates,
            ts_templates,
            k,
        ),
    decreases n,
{
    if n - 1 > k {
        lemma_first_setup_at(sources, templates, ts_templates, k, n - 1);
    } else {
        lemma_no_setup_upto(sources, templates, ts_templates, k);
    }
}

/// With every source up to `n` clean, no setup failure yet.
proof fn lemma_no_setup_upto(
    sources: Seq<crate::model::Source>,
    templates: Seq<crate::model::SourceTemplate>,
    ts_templates: Seq<crate::model::TimestampTemplate>,
    n: int,
)
    requires
        n <= sources.len(),
        forall|j: int|
            0 <= j < n ==> cluster_setup_failure(sources, templates, ts_templates, j) is None,
    ensures
        first_cluster_setup_failure(sources, templates, ts_templates, n) is None,
    decreases n,
{
    if n > 0 {
        lemma_no_setup_upto(sources, templates, ts_templates, n - 1);
    }
}

/// A bad first entry at one source, with every earlier head clean, is
/// the first.
proof fn lemma_first_bad_head_at(
    sources: Seq<crate::model::Source>,
    templates: Seq<crate::model::SourceTemplate>,
    ts_templates: Seq<crate::model::TimestampTemplate>,
    texts: Seq<Seq<char>>,
    k: int,
    n: int,
)
    requires
        0 <= k < n <= sources.len(),
        forall|j: int|
            0 <= j < k ==> bad_head(sources, templates, ts_templates, texts, j) is None,
        bad_head(sources, templates, ts_templates, texts, k) is Some,
    ensures
        first_bad_head(sources, templates, ts_templates, texts, n) == bad_head(
            sources,
            templates,
            ts_templates,
            texts,
            k,
        ),
    decreases n,
{
    if n - 1 > k {
        lemma_first_bad_head_at(sources, templates, ts_templates, texts, k, n - 1);
    } else {
        lemma_no_bad_head_upto(sources, templates, ts_templates, texts, k);
    }
}

/// With every head up to `n` clean, no bad head yet.
proof fn lemma_no_bad_head_upto(
    sources: Seq<crate::model::Source>,
    templates: Seq<crate::model::SourceTemplate>,
    ts_templates: Seq<crate::model::TimestampTemplate>,
    texts: Seq<Seq<char>>,
    n: int,
)
    requires
        n <= sources.len(),
        forall|j: int|
            0 <= j < n ==> bad_head(sources, templates, ts_templates, texts, j) is None,
    ensures
        first_bad_head(sources, templates, ts_templates, texts, n) is None,
    decreases n,
{
    if n > 0 {
        lemma_no_bad_head_upto(sources, templates, ts_templates, texts, n - 1);
    }
}

/// Clusters the merged stream of all sources by masked line template
/// inside the time range: the lines the chronological merge yields
/// under the range bounds (`collect_stream`, from each source's parse
/// entries), bucketed by signature with singletons dropped
/// (`clusters_spec`).  Succeeds exactly when every source's templates
/// are found, its regexes compile, its first entry parses, and no
/// merged entry fails to parse before the end-bound stop; the error
/// carries the kind of the first failure.
#[verifier::rlimit(60)]
pub fn cluster_logs(
    sources: &Vec<crate::model::Source>,
    texts: &Vec<String>,
    templates: &Vec<crate::model::SourceTemplate>,
    timestamp_templates: &Vec<crate::model::TimestampTemplate>,
    time_range: &crate::driver::TimeRange,
) -> (r: Result<ClusterResult, AnalysisError>)
    requires
        texts@.len() == sources@.len(),
    ensures
        r is Ok <==> first_cluster_setup_failure(
            sources@,
            templates@,
            timestamp_templates@,
            sources@.len() as int,
        ) is None && first_bad_head(
            sources@,
            templates@,
            timestamp_templates@,
            crate::driver::texts_view(texts@),
            sources@.len() as int,
        ) is None && collect_stream(
            init_heads(sources@, templates@, timestamp_templates@, crate::driver::texts_view(texts@)),
            init_rems(sources@, templates@, timestamp_templates@, crate::driver::texts_view(texts@)),
            *time_range,
        ) is Ok,
        r matches Ok(c) ==> {
            &&& collect_stream(
                init_heads(
                    sources@,
                    templates@,
                    timestamp_templates@,
                    crate::driver::texts_view(texts@),
                ),
                init_rems(
                    sources@,
                    templates@,
                    timestamp_templates@,
                    crate::driver::texts_view(texts@),
                ),
                *time_range,
            ) matches Ok(ls)
            &&& c.clusters@.map_values(|cl: LogCluster| bucket_view(cl)) == clusters_spec(ls)
            &&& c.total_lines as int == ls.len()
            &&& forall|k: int|
                0 <= k < ls.len() ==> crate::driver::after_start(
                    *time_range,
                    (#[trigger] ls[k]).timestamp,
                ) && crate::driver::before_end(*time_range, ls[k].timestamp)
        },
        r matches Err(e) ==> {
            match first_cluster_setup_failure(
                sources@,
                templates@,
                timestamp_templates@,
                sources@.len() as int,
            ) {
                Some(ClusterSetupFail::MissingTemplate) => e is ParseError,
                Some(ClusterSetupFail::BadRegex) => e is InvalidRegex,
                None => match first_bad_head(
                    sources@,
                    templates@,
                    timestamp_templates@,
                    crate::driver::texts_view(texts@),
                    sources@.len() as int,
                ) {
                    Some(k) => crate::driver::entry_err_class(e, k),
                    None => collect_stream(
                        init_heads(
                            sources@,
                            templates@,
                            timestamp_templates@,
                            crate::driver::texts_view(texts@),
                        ),
                        init_rems(
                            sources@,
                            templates@,
                            timestamp_templates@,
                            crate::driver::texts_view(texts@),
                        ),
                        *time_range,
                    ) matches Err(k2) && crate::driver::entry_err_class(e, k2),
                },
            }
        },
{
    let ghost tviews = crate::driver::texts_view(texts@);
    let ghost ns_int = sources@.len() as int;
    let ns = sources.len();
    let mut iterators: Vec<crate::lines::LogLineIterator> = Vec::new();
    let mut si: usize = 0;
    while si < ns
        invariant
            si <= ns,
            ns == sources@.len(),
            ns_int == sources@.len() as int,
            texts@.len() == sources@.len(),
            tviews == crate::driver::texts_view(texts@),
            iterators@.len() == si,
            forall|j: int| 0 <= j < iterators@.len() ==> (#[trigger] iterators@[j]).wf(),
            forall|j: int|
                0 <= j < si ==> cluster_setup_failure(
                    sources@,
                    templates@,
                    timestamp_templates@,
                    j,
                ) is None,
            forall|j: int|
                0 <= j < si ==> (#[trigger] iterators@[j]).remaining() == cluster_entries(
                    sources@,
                    templates@,
                    timestamp_templates@,
                    tviews,
                    j,
                ),
        decreases ns - si,
    {
        let source = &sources[si];
        let template = match crate::driver::find_template_for(templates, source.template_id) {
            Some(t) => t,
            None => {
                proof {
                    assert(cluster_setup_failure(
                        sources@,
                        templates@,
                        timestamp_templates@,
                        si as int,
                    ) == Some(ClusterSetupFail::MissingTemplate));
                    lemma_first_setup_at(
                        sources@,
                        templates@,
                        timestamp_templates@,
                        si as int,
                        ns_int,
                    );
                }
                let mut m = String::new();
                m.append("no template found for template_id ");
                let idtext = crate::text::u64_to_string(source.template_id);
                m.append(idtext.as_str());
                return Err(AnalysisError::ParseError(m));
            },
        };
        let ts_template = match crate::driver::find_ts_template_for(
            timestamp_templates,
            template.timestamp_template_id,
        ) {
            Some(t) => t,
            None => {
                proof {
                    assert(cluster_setup_failure(
                        sources@,
                        templates@,
                        timestamp_templates@,
                        si as int,
                    ) == Some(ClusterSetupFail::MissingTemplate));
                    lemma_first_setup_at(
                        sources@,
                        templates@,
                        timestamp_templates@,
                        si as int,
                        ns_int,
                    );
                }
                let mut m = String::new();
                m.append("no timestamp template found for timestamp_template_id ");
                let idtext = crate::text::u64_to_string(template.timestamp_template_id);
                m.append(idtext.as_str());
                return Err(AnalysisError::ParseError(m));
            },
        };
        let it = match crate::lines::LogLineIterator::new(
            source,
            template,
            ts_template,
            texts[si].as_str(),
        ) {
            Ok(it) => it,
            Err(e) => {
                proof {
                    assert(cluster_setup_failure(
                        sources@,
                        templates@,
                        timestamp_templates@,
                        si as int,
                    ) == Some(ClusterSetupFail::BadRegex));
                    lemma_first_setup_at(
                        sources@,
                        templates@,
                        timestamp_templates@,
                        si as int,
                        ns_int,
                    );
                }
                return Err(e);
            },
        };
        iterators.push(it);
        si = si + 1;
    }
    proof {
        lemma_no_setup_upto(sources@, templates@, timestamp_templates@, ns_int);
    }
    let ghost itv = iterators@;
    let mut stream = match crate::merge::MergedLogStream::new(iterators) {
        Ok(s) => s,
        Err(e) => {
            proof {
                let w = choose|i: int|
                    {
                        &&& 0 <= i < itv.len()
                        &&& (#[trigger] itv[i]).remaining().len() > 0
                        &&& itv[i].remaining()[0] is Err
                        &&& forall|j: int|
                            0 <= j < i ==> ((#[trigger] itv[j]).remaining().len() == 0
                                || itv[j].remaining()[0] is Ok)
                        &&& crate::lines::result_matches(
                            Err::<LogLine, AnalysisError>(e),
                            itv[i].remaining()[0],
                        )
                    };
                assert(bad_head(sources@, templates@, timestamp_templates@, tviews, w) is Some);
                assert forall|j: int|
                    0 <= j < w implies bad_head(
                    sources@,
                    templates@,
                    timestamp_templates@,
                    tviews,
                    j,
                ) is None by {
                    assert(itv[j].remaining().len() == 0 || itv[j].remaining()[0] is Ok);
                }
                lemma_first_bad_head_at(
                    sources@,
                    templates@,
                    timestamp_templates@,
                    tviews,
                    w,
                    ns_int,
                );
            }
            return Err(e);
        },
    };
    let ghost heads0 = stream.heads_view();
    let ghost rems0 = stream.rems();
    proof {
        assert forall|j: int|
            0 <= j < ns_int implies bad_head(
            sources@,
            templates@,
            timestamp_templates@,
            tviews,
            j,
        ) is None by {
            assert(itv[j].remaining().len() == 0 || itv[j].remaining()[0] is Ok);
        }
        lemma_no_bad_head_upto(sources@, templates@, timestamp_templates@, tviews, ns_int);
        assert(heads0.len() == ns_int && rems0.len() == ns_int);
        assert forall|i: int|
            0 <= i < ns_int implies heads0[i] == init_heads(
            sources@,
            templates@,
            timestamp_templates@,
            tviews,
        )[i] && rems0[i] == init_rems(sources@, templates@, timestamp_templates@, tviews)[i] by {
            assert(itv[i].remaining() == cluster_entries(
                sources@,
                templates@,
                timestamp_templates@,
                tviews,
                i,
            ));
            assert(itv[i].remaining().len() == 0 || itv[i].remaining()[0] is Ok);
        }
        assert(heads0 =~= init_heads(sources@, templates@, timestamp_templates@, tviews));
        assert(rems0 =~= init_rems(sources@, templates@, timestamp_templates@, tviews));
    }
    let mut collected: Vec<LogLine> = Vec::new();
    proof {
        assert(collected@.map_values(|l: LogLine| l@) =~= Seq::<LineRep>::empty());
    }
    loop
        invariant_except_break
            stream.wf(),
            stream.heads_view().len() == stream.rems().len(),
            collect_stream(heads0, rems0, *time_range) == (match collect_stream(
                stream.heads_view(),
                stream.rems(),
                *time_range,
            ) {
                Ok(rest) => Ok::<Seq<LineRep>, crate::lines::EntryErr>(
                    collected@.map_values(|l: LogLine| l@) + rest,
                ),
                Err(k) => Err::<Seq<LineRep>, crate::lines::EntryErr>(k),
            }),
        invariant
            tviews == crate::driver::texts_view(texts@),
            heads0 == init_heads(sources@, templates@, timestamp_templates@, tviews),
            rems0 == init_rems(sources@, templates@, timestamp_templates@, tviews),
            first_cluster_setup_failure(
                sources@,
                templates@,
                timestamp_templates@,
                sources@.len() as int,
            ) is None,
            first_bad_head(
                sources@,
                templates@,
                timestamp_templates@,
                tviews,
                sources@.len() as int,
            ) is None,
            forall|k: int|
                0 <= k < collected@.len() ==> crate::driver::after_start(
                    *time_range,
                    (#[trigger] collected@[k]).timestamp,
                ) && crate::driver::before_end(*time_range, collected@[k].timestamp),
        ensures
            collect_stream(heads0, rems0, *time_range) == Ok::<
                Seq<LineRep>,
                crate::lines::EntryErr,
            >(collected@.map_values(|l: LogLine| l@)),
            forall|k: int|
                0 <= k < collected@.len() ==> crate::driver::after_start(
                    *time_range,
                    (#[trigger] collected@[k]).timestamp,
                ) && crate::driver::before_end(*time_range, collected@[k].timestamp),
        decreases live_heads(stream.heads_view(), stream.heads_view().len() as int) + rem_total(
            stream.rems(),
            stream.rems().len() as int,
        ),
    {
        let ghost hv = stream.heads_view();
        let ghost rv = stream.rems();
        let ghost cv = collected@.map_values(|l: LogLine| l@);
        proof {
            lemma_live_heads_nonneg(hv, hv.len() as int);
            lemma_rem_total_nonneg(rv, rv.len() as int);
            crate::merge::lemma_pick_in_range_pub(crate::merge::line_head_ts(hv));
            let p = crate::merge::pick(crate::merge::line_head_ts(hv));
            if 0 <= p < hv.len() && p < rv.len() {
                let rem = rv[p];
                if rem.len() == 0 {
                    lemma_live_heads_update(hv, p, None, hv.len() as int);
                    lemma_rem_total_update(rv, p, rem, rv.len() as int);
                    assert(rv.update(p, rem) =~= rv);
                    lemma_live_heads_nonneg(hv.update(p, None), hv.len() as int);
                } else if rem[0] is Ok {
                    lemma_live_heads_update(hv, p, Some(rem[0]->Ok_0), hv.len() as int);
                    lemma_rem_total_update(rv, p, rem.skip(1), rv.len() as int);
                    lemma_live_heads_nonneg(
                        hv.update(p, Some(rem[0]->Ok_0)),
                        hv.len() as int,
                    );
                    lemma_rem_total_nonneg(rv.update(p, rem.skip(1)), rv.len() as int);
                } else {
                    lemma_live_heads_update(hv, p, None, hv.len() as int);
                    lemma_rem_total_update(rv, p, rem.skip(1), rv.len() as int);
                    lemma_live_heads_nonneg(hv.update(p, None), hv.len() as int);
                    lemma_rem_total_nonneg(rv.update(p, rem.skip(1)), rv.len() as int);
                }
            }
        }
        match stream.next() {
            None => {
                proof {
                    assert(collect_stream(hv, rv, *time_range) == Ok::<
                        Seq<LineRep>,
                        crate::lines::EntryErr,
                    >(Seq::empty()));
                    assert(cv + Seq::<LineRep>::empty() =~= cv);
                }
                break ;
            },
            Some(Err(e)) => {
                proof {
                    let p = crate::merge::pick(crate::merge::line_head_ts(hv));
                    assert(collect_stream(hv, rv, *time_range) == Err::<
                        Seq<LineRep>,
                        crate::lines::EntryErr,
                    >(rv[p][0]->Err_0));
                    assert(crate::driver::entry_err_class(e, rv[p][0]->Err_0));
                }
                return Err(e);
            },
            Some(Ok(line)) => {
                proof {
                    let p = crate::merge::pick(crate::merge::line_head_ts(hv));
                    let rem = rv[p];
                    if rem.len() == 0 {
                        assert(stream.rems() =~= rv);
                    }
                    assert(Some(line@) == hv[p]);
                }
                let skip_line = match &time_range.start {
                    Some(s) => line.timestamp.lt(s),
                    None => false,
                };
                if skip_line {
                    proof {
                        let p = crate::merge::pick(crate::merge::line_head_ts(hv));
                        assert(!crate::driver::after_start(*time_range, hv[p]->Some_0.timestamp));
                        assert(collect_stream(hv, rv, *time_range) == collect_stream(
                            stream.heads_view(),
                            stream.rems(),
                            *time_range,
                        ));
                    }
                } else {
                    let stop = match &time_range.end {
                        Some(e) => e.lt(&line.timestamp),
                        None => false,
                    };
                    if stop {
                        proof {
                            let p = crate::merge::pick(crate::merge::line_head_ts(hv));
                            assert(!crate::driver::before_end(
                                *time_range,
                                hv[p]->Some_0.timestamp,
                            ));
                            assert(collect_stream(hv, rv, *time_range) == Ok::<
                                Seq<LineRep>,
                                crate::lines::EntryErr,
                            >(Seq::empty()));
                            assert(cv + Seq::<LineRep>::empty() =~= cv);
                        }
                        break ;
                    }
                    let ghost lrep = line@;
                    collected.push(line);
                    proof {
                        let p = crate::merge::pick(crate::merge::line_head_ts(hv));
                        assert(collected@.map_values(|l: LogLine| l@) =~= cv.push(lrep));
                        assert(crate::driver::after_start(*time_range, lrep.timestamp)
                            && crate::driver::before_end(*time_range, lrep.timestamp));
                        match collect_stream(stream.heads_view(), stream.rems(), *time_range) {
                            Ok(rest) => {
                                assert(collect_stream(hv, rv, *time_range) == Ok::<
                                    Seq<LineRep>,
                                    crate::lines::EntryErr,
                                >(seq![lrep] + rest));
                                assert(cv + (seq![lrep] + rest) =~= cv.push(lrep) + rest);
                            },
                            Err(k) => {
                                assert(collect_stream(hv, rv, *time_range) == Err::<
                                    Seq<LineRep>,
                                    crate::lines::EntryErr,
                                >(k));
                            },
                        }
                    }
                }
            },
        }
    }
    let result = cluster_lines(&collected);
    proof {
        let ls = collected@.map_values(|l: LogLine| l@);
        assert(clusters_spec(ls) == result.clusters@.map_values(|cl: LogCluster| bucket_view(cl)));
    }
    Ok(result)
}

} // verus!