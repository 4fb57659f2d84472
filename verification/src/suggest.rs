//! Suggests a regex from an example line: numbers and quoted strings
//! become named capture groups, everything else is escaped literally.

use vstd::prelude::*;

use crate::cluster::is_digit_c;
use crate::text::{dec_str, u64_to_string};

verus! {

/// The characters a regex treats specially.
pub open spec fn regex_special(c: char) -> bool {
    c == '.' || c == '^' || c == '$' || c == '*' || c == '+' || c == '?' || c == '(' || c == ')'
        || c == '[' || c == ']' || c == '{' || c == '}' || c == '|' || c == '\\'
}

/// Whether a character must be escaped in a regex.
pub fn is_regex_special(c: char) -> (r: bool)
    ensures
        r == regex_special(c),
{
    c == '.' || c == '^' || c == '$' || c == '*' || c == '+' || c == '?' || c == '(' || c == ')'
        || c == '[' || c == ']' || c == '{' || c == '}' || c == '|' || c == '\\'
}

/// The end of a number run: digits and dots.
pub open spec fn num_run_end(t: Seq<char>, i: int) -> int
    decreases t.len() - i,
{
    if i < 0 || i >= t.len() || !(is_digit_c(t[i]) || t[i] == '.') {
        i
    } else {
        num_run_end(t, i + 1)
    }
}

/// The position after the closing double quote at or after `i`, or
/// the text's end.
pub open spec fn quote_run_end(t: Seq<char>, i: int) -> int
    decreases t.len() - i,
{
    if i < 0 || i >= t.len() {
        i
    } else if t[i] == '"' {
        i + 1
    } else {
        quote_run_end(t, i + 1)
    }
}

/// The group name for a number at the given index.
pub open spec fn num_group_name(g: int) -> Seq<char> {
    "num_"@ + dec_str(g)
}

/// The group name for a quoted string at the given index.
pub open spec fn str_group_name(g: int) -> Seq<char> {
    "str_"@ + dec_str(g)
}

/// The suggested pattern and capture-group names from position `i`:
/// a digit starts a number group consuming digits and dots, a double
/// quote starts a string group consuming up to the closing quote, any
/// other character is emitted (escaped when the regex treats it
/// specially).
pub open spec fn suggest_from(t: Seq<char>, i: int, g: int) -> (Seq<char>, Seq<Seq<char>>)
    decreases t.len() - i,
    via suggest_from_dec
{
    if i < 0 || i >= t.len() {
        (Seq::empty(), Seq::empty())
    } else if is_digit_c(t[i]) {
        let j = num_run_end(t, i + 1);
        let rest = suggest_from(t, j, g + 1);
        (
            "(?P<"@ + num_group_name(g) + ">\\d[\\d.]*)"@ + rest.0,
            seq![num_group_name(g)] + rest.1,
        )
    } else if t[i] == '"' {
        let j = quote_run_end(t, i + 1);
        let rest = suggest_from(t, j, g + 1);
        (
            "\"(?P<"@ + str_group_name(g) + ">[^\"]*)\""@ + rest.0,
            seq![str_group_name(g)] + rest.1,
        )
    } else {
        let rest = suggest_from(t, i + 1, g);
        (
            (if regex_special(t[i]) {
                seq!['\\', t[i]]
            } else {
                seq![t[i]]
            }) + rest.0,
            rest.1,
        )
    }
}

proof fn lemma_num_run_bounds(t: Seq<char>, i: int)
    requires
        0 <= i <= t.len(),
    ensures
        i <= num_run_end(t, i) <= t.len(),
    decreases t.len() - i,
{
    if i < t.len() && (is_digit_c(t[i]) || t[i] == '.') {
        lemma_num_run_bounds(t, i + 1);
    }
}

proof fn lemma_quote_run_bounds(t: Seq<char>, i: int)
    requires
        0 <= i <= t.len(),
    ensures
        i <= quote_run_end(t, i) <= t.len(),
    decreases t.len() - i,
{
    if i < t.len() && t[i] != '"' {
        lemma_quote_run_bounds(t, i + 1);
    }
}

#[via_fn]
proof fn suggest_from_dec(t: Seq<char>, i: int, g: int) {
    if 0 <= i < t.len() {
        lemma_num_run_bounds(t, i + 1);
        lemma_quote_run_bounds(t, i + 1);
    }
}

fn is_num_char(c: char) -> (r: bool)
    ensures
        r == (is_digit_c(c) || c == '.'),
{
    let u = c as u32;
    (48 <= u && u <= 57) || c == '.'
}

/// The end of a number run (`num_run_end`).
fn num_run_end_exec(t: &str, i: usize) -> (r: usize)
    requires
        i <= t@.len(),
    ensures
        r as int == num_run_end(t@, i as int),
        i <= r <= t@.len(),
{
    let n = t.unicode_len();
    let mut j = i;
    while j < n && is_num_char(t.get_char(j))
        invariant
            i <= j <= n,
            n == t@.len(),
            num_run_end(t@, i as int) == num_run_end(t@, j as int),
        decreases n - j,
    {
        j = j + 1;
    }
    j
}

/// The position after the closing quote (`quote_run_end`).
fn quote_run_end_exec(t: &str, i: usize) -> (r: usize)
    requires
        i <= t@.len(),
    ensures
        r as int == quote_run_end(t@, i as int),
        i <= r <= t@.len(),
{
    let n = t.unicode_len();
    let mut j = i;
    while j < n && t.get_char(j) != '"'
        invariant
            i <= j <= n,
            n == t@.len(),
            quote_run_end(t@, i as int) == quote_run_end(t@, j as int),
        decreases n - j,
    {
        j = j + 1;
    }
    if j < n {
        j + 1
    } else {
        j
    }
}

/// Builds a suggested regex and its capture-group names from an
/// example text (`suggest_from`).
pub fn build_suggested_pattern(text: &str) -> (r: (String, Vec<String>))
    ensures
        r.0@ == suggest_from(text@, 0, 0).0,
        r.1@.map_values(|s: String| s@) == suggest_from(text@, 0, 0).1,
{
    let n = text.unicode_len();
    let mut pattern = String::new();
    let mut groups: Vec<String> = Vec::new();
    proof {
        assert(groups@.map_values(|s: String| s@) =~= Seq::<Seq<char>>::empty());
    }
    build_rec(text, 0, 0, n, &mut pattern, &mut groups);
    (pattern, groups)
}

/// Appends the suggestion from position `i` (`suggest_from`).
fn build_rec(text: &str, i: usize, g: u64, n: usize, pattern: &mut String, groups: &mut Vec<String>)
    requires
        i <= n,
        n == text@.len(),
        g + (n - i) <= u64::MAX,
    ensures
        final(pattern)@ == old(pattern)@ + suggest_from(text@, i as int, g as int).0,
        final(groups)@.map_values(|s: String| s@) == old(groups)@.map_values(|s: String| s@)
            + suggest_from(text@, i as int, g as int).1,
    decreases n - i,
{
    if i >= n {
        proof {
            assert(final(pattern)@ =~= old(pattern)@ + suggest_from(text@, i as int, g as int).0);
            assert(final(groups)@.map_values(|s: String| s@) =~= old(groups)@.map_values(
                |s: String| s@,
            ) + suggest_from(text@, i as int, g as int).1);
        }
        return ;
    }
    let c = text.get_char(i);
    let u = c as u32;
    if 48 <= u && u <= 57 {
        let j = num_run_end_exec(text, i + 1);
        let mut name = String::new();
        name.append("num_");
        let digits = u64_to_string(g);
        name.append(digits.as_str());
        proof {
            reveal_strlit("num_");
            assert(name@ =~= num_group_name(g as int));
        }
        pattern.append("(?P<");
        pattern.append(name.as_str());
        pattern.append(">\\d[\\d.]*)");
        let ghost gr0 = groups@.map_values(|s: String| s@);
        groups.push(name);
        proof {
            reveal_strlit("(?P<");
            reveal_strlit(">\\d[\\d.]*)");
            assert(groups@.map_values(|s: String| s@) =~= gr0.push(num_group_name(g as int)));
        }
        build_rec(text, j, g + 1, n, pattern, groups);
        proof {
            let step = suggest_from(text@, i as int, g as int);
            let rest = suggest_from(text@, j as int, g as int + 1);
            assert(final(pattern)@ =~= old(pattern)@ + step.0);
            assert(gr0.push(num_group_name(g as int)) + rest.1 =~= gr0 + step.1);
        }
    } else if c == '"' {
        let j = quote_run_end_exec(text, i + 1);
        let mut name = String::new();
        name.append("str_");
        let digits = u64_to_string(g);
        name.append(digits.as_str());
        proof {
            reveal_strlit("str_");
            assert(name@ =~= str_group_name(g as int));
        }
        pattern.append("\"(?P<");
        pattern.append(name.as_str());
        pattern.append(">[^\"]*)\"");
        let ghost gr0 = groups@.map_values(|s: String| s@);
        groups.push(name);
        proof {
            reveal_strlit("\"(?P<");
            reveal_strlit(">[^\"]*)\"");
            assert(groups@.map_values(|s: String| s@) =~= gr0.push(str_group_name(g as int)));
        }
        build_rec(text, j, g + 1, n, pattern, groups);
        proof {
            let step = suggest_from(text@, i as int, g as int);
            let rest = suggest_from(text@, j as int, g as int + 1);
            assert(final(pattern)@ =~= old(pattern)@ + step.0);
            assert(gr0.push(str_group_name(g as int)) + rest.1 =~= gr0 + step.1);
        }
    } else {
        if is_regex_special(c) {
            pattern.append("\\");
            proof {
                reveal_strlit("\\");
            }
        }
        let piece = text.substring_char(i, i + 1);
        pattern.append(piece);
        proof {
            assert(piece@ =~= seq![text@[i as int]]);
        }
        build_rec(text, i + 1, g, n, pattern, groups);
        proof {
            let step = suggest_from(text@, i as int, g as int);
            assert(final(pattern)@ =~= old(pattern)@ + step.0);
        }
    }
}

} // verus!
