//! Timestamp parsing over a strftime-style format: whole-string
//! parse, a width-window prefix search, a full prefix scan as
//! fallback, and the default-year augmentation.

use vstd::prelude::*;

use crate::text;
use crate::times::{chrono_parse, parse_datetime, Timestamp};

verus! {

/// The `(min, max)` length estimate of a format string, accumulated
/// over its characters with saturating addition: each `%` specifier
/// contributes its table width, every other character contributes one.
pub open spec fn est_len_spec(fmt: Seq<char>, i: int, mn: usize, mx: usize) -> (usize, usize)
    decreases fmt.len() - i,
{
    if i < 0 || i >= fmt.len() {
        (mn, mx)
    } else if fmt[i] == '%' && i + 1 < fmt.len() {
        let sp = fmt[i + 1];
        if (sp == '3' || sp == '6' || sp == '9') && i + 2 < fmt.len() && fmt[i + 2] == 'f' {
            // %3f / %6f / %9f: fixed-width subseconds
            let w = (sp as usize - 48) as usize;
            est_len_spec(fmt, i + 3, mn.saturating_add(w), mx.saturating_add(w))
        } else if sp == ':' && i + 2 < fmt.len() && fmt[i + 2] == 'z' {
            // %:z timezone offset with colon
            est_len_spec(fmt, i + 3, mn.saturating_add(6), mx.saturating_add(6))
        } else {
            let (a, b) = spec_widths(sp);
            est_len_spec(fmt, i + 2, mn.saturating_add(a), mx.saturating_add(b))
        }
    } else {
        est_len_spec(fmt, i + 1, mn.saturating_add(1), mx.saturating_add(1))
    }
}

/// Per-specifier `(min, max)` width contributions.
pub open spec fn spec_widths(sp: char) -> (usize, usize) {
    if sp == 'Y' {
        (4, 4)
    } else if sp == 'C' || sp == 'y' || sp == 'm' || sp == 'd' || sp == 'e' || sp == 'H' || sp
        == 'I' || sp == 'M' || sp == 'S' {
        (2, 2)
    } else if sp == 'b' || sp == 'h' || sp == 'a' || sp == 'j' {
        (3, 3)
    } else if sp == 'B' || sp == 'A' {
        (3, 9)
    } else if sp == 'p' || sp == 'P' {
        (2, 2)
    } else if sp == 'z' {
        (5, 5)
    } else if sp == 'Z' {
        (3, 5)
    } else if sp == 'u' || sp == 'w' {
        (1, 1)
    } else if sp == 'f' {
        (1, 9)
    } else if sp == '%' {
        (1, 1)
    } else {
        (1, 6)
    }
}

/// Estimates the `(min, max)` rendered length of a format string, by
/// its bytes (`est_len_spec`); used to narrow the prefix search.
pub fn estimate_timestamp_len(fmt: &str) -> (r: (usize, usize))
    ensures
        r == est_len_spec(fmt@, 0, 0, 0),
{
    let n = fmt.unicode_len();
    let mut mn: usize = 0;
    let mut mx: usize = 0;
    let mut i: usize = 0;
    while i < n
        invariant
            i <= n,
            n == fmt@.len(),
            est_len_spec(fmt@, 0, 0, 0) == est_len_spec(fmt@, i as int, mn, mx),
        decreases n - i,
    {
        let c = fmt.get_char(i);
        if c == '%' && i + 1 < n {
            let sp = fmt.get_char(i + 1);
            if (sp == '3' || sp == '6' || sp == '9') && i + 2 < n && fmt.get_char(i + 2) == 'f' {
                let w = (sp as u32 as usize) - 48;
                mn = mn.saturating_add(w);
                mx = mx.saturating_add(w);
                i = i + 3;
            } else if sp == ':' && i + 2 < n && fmt.get_char(i + 2) == 'z' {
                mn = mn.saturating_add(6);
                mx = mx.saturating_add(6);
                i = i + 3;
            } else {
                let (a, b) = spec_width_of(sp);
                mn = mn.saturating_add(a);
                mx = mx.saturating_add(b);
                i = i + 2;
            }
        } else {
            mn = mn.saturating_add(1);
            mx = mx.saturating_add(1);
            i = i + 1;
        }
    }
    (mn, mx)
}

fn spec_width_of(sp: char) -> (r: (usize, usize))
    ensures
        r == spec_widths(sp),
{
    if sp == 'Y' {
        (4, 4)
    } else if sp == 'C' || sp == 'y' || sp == 'm' || sp == 'd' || sp == 'e' || sp == 'H' || sp
        == 'I' || sp == 'M' || sp == 'S' {
        (2, 2)
    } else if sp == 'b' || sp == 'h' || sp == 'a' || sp == 'j' {
        (3, 3)
    } else if sp == 'B' || sp == 'A' {
        (3, 9)
    } else if sp == 'p' || sp == 'P' {
        (2, 2)
    } else if sp == 'z' {
        (5, 5)
    } else if sp == 'Z' {
        (3, 5)
    } else if sp == 'u' || sp == 'w' {
        (1, 1)
    } else if sp == 'f' {
        (1, 9)
    } else if sp == '%' {
        (1, 1)
    } else {
        (1, 6)
    }
}

/// The first prefix of `line`, trying lengths from `hi` down to `lo`,
/// that the format parses.
pub open spec fn scan_range(line: Seq<char>, fmt: Seq<char>, hi: int, lo: int) -> Option<Timestamp>
    decreases hi - lo + 1,
{
    if hi < lo || lo < 0 || hi > line.len() {
        None
    } else {
        match chrono_parse(line.take(hi), fmt) {
            Some(ts) => Some(ts),
            None => scan_range(line, fmt, hi - 1, lo),
        }
    }
}

fn scan_range_exec(line: &str, fmt: &str, hi: usize, lo: usize) -> (r: Option<Timestamp>)
    requires
        hi <= line@.len(),
    ensures
        r == scan_range(line@, fmt@, hi as int, lo as int),
{
    let mut end = hi;
    loop
        invariant
            end <= hi <= line@.len(),
            scan_range(line@, fmt@, hi as int, lo as int) == scan_range(
                line@,
                fmt@,
                end as int,
                lo as int,
            ),
        ensures
            scan_range(line@, fmt@, hi as int, lo as int) == scan_range(
                line@,
                fmt@,
                end as int,
                lo as int,
            ),
            end < lo || chrono_parse(line@.take(end as int), fmt@) is Some,
        decreases end,
    {
        if end < lo {
            break ;
        }
        let prefix = line.substring_char(0, end);
        proof {
            assert(prefix@ =~= line@.take(end as int));
        }
        match parse_datetime(prefix, fmt) {
            Some(_) => {
                break ;
            },
            None => {
                if end == 0 {
                    proof {
                        assert(scan_range(line@, fmt@, -1, lo as int) is None);
                    }
                    return None;
                }
                end = end - 1;
            },
        }
    }
    if end < lo {
        None
    } else {
        let prefix = line.substring_char(0, end);
        proof {
            assert(prefix@ =~= line@.take(end as int));
        }
        parse_datetime(prefix, fmt)
    }
}

/// What the prefix search yields: the estimate's window (with one
/// character of margin, clamped to the line) tried longest first,
/// then a full scan below the window, then above it.  Lengths are in
/// characters.
pub open spec fn prefix_parse_spec(line: Seq<char>, fmt: Seq<char>, fmt_len: int, mn: usize, mx: usize) -> Option<
    Timestamp,
> {
    let lo = spec_min(spec_max(mn as int - 1, 1), line.len() as int);
    let hi = spec_min(mx as int + 1, line.len() as int);
    match scan_range(line, fmt, hi, lo) {
        Some(ts) => Some(ts),
        None => {
            let base = spec_min(fmt_len, line.len() as int);
            match scan_range(line, fmt, lo - 1, base) {
                Some(ts) => Some(ts),
                None => scan_range(line, fmt, line.len() as int, hi + 1),
            }
        },
    }
}

pub open spec fn spec_min(a: int, b: int) -> int {
    if a < b {
        a
    } else {
        b
    }
}

pub open spec fn spec_max(a: int, b: int) -> int {
    if a > b {
        a
    } else {
        b
    }
}

/// Parses a timestamp from the beginning of a line by trying
/// progressively shorter prefixes: first a window sized by
/// `estimate_timestamp_len`, then the remaining lengths
/// (`prefix_parse_spec`).
pub fn parse_timestamp_prefix(line: &str, fmt: &str) -> (r: Option<Timestamp>)
    ensures
        r == prefix_parse_spec(
            line@,
            fmt@,
            fmt@.len() as int,
            est_len_spec(fmt@, 0, 0, 0).0,
            est_len_spec(fmt@, 0, 0, 0).1,
        ),
{
    let (min_ts, max_ts) = estimate_timestamp_len(fmt);
    let n = line.unicode_len();
    let lo_base = if min_ts >= 1 {
        min_ts - 1
    } else {
        0
    };
    let lo_clamped = if lo_base >= 1 {
        lo_base
    } else {
        1
    };
    let lo = if lo_clamped < n {
        lo_clamped
    } else {
        n
    };
    let hi_raw = max_ts.saturating_add(1);
    let hi = if hi_raw < n {
        hi_raw
    } else {
        n
    };
    proof {
        assert(lo as int == spec_min(spec_max(min_ts as int - 1, 1), line@.len() as int));
        assert(hi as int == spec_min(max_ts as int + 1, line@.len() as int));
    }
    match scan_range_exec(line, fmt, hi, lo) {
        Some(ts) => Some(ts),
        None => {
            let fl = fmt.unicode_len();
            let base = if fl < n {
                fl
            } else {
                n
            };
            let below_hi = if lo >= 1 {
                lo - 1
            } else {
                0
            };
            let first = if lo >= 1 {
                scan_range_exec(line, fmt, below_hi, base)
            } else {
                proof {
                    assert(scan_range(line@, fmt@, lo as int - 1, base as int) is None);
                }
                None
            };
            match first {
                Some(ts) => Some(ts),
                None => {
                    if hi == n {
                        proof {
                            assert(scan_range(line@, fmt@, n as int, hi as int + 1) is None);
                        }
                        None
                    } else {
                        scan_range_exec(line, fmt, n, hi + 1)
                    }
                },
            }
        },
    }
}

/// The full parse a line's timestamp text goes through: a whole-string
/// parse, the prefix search, and — when a default year is set — the
/// same two steps on the year-augmented text and format.
pub open spec fn parse_ts_spec(s: Seq<char>, fmt: Seq<char>, default_year: Option<i32>) -> Option<
    Timestamp,
> {
    let est = est_len_spec(fmt, 0, 0, 0);
    match chrono_parse(s, fmt) {
        Some(ts) => Some(ts),
        None => match prefix_parse_spec(s, fmt, fmt.len() as int, est.0, est.1) {
            Some(ts) => Some(ts),
            None => match default_year {
                Some(y) => {
                    let aug = text::dec_str_signed(y as int) + " "@ + s;
                    let augfmt = "%Y "@ + fmt;
                    let augest = est_len_spec(augfmt, 0, 0, 0);
                    match chrono_parse(aug, augfmt) {
                        Some(ts) => Some(ts),
                        None => prefix_parse_spec(
                            aug,
                            augfmt,
                            augfmt.len() as int,
                            augest.0,
                            augest.1,
                        ),
                    }
                },
                None => None,
            },
        },
    }
}

/// Parses a candidate timestamp text under a format, with the
/// default-year augmentation as a last resort (`parse_ts_spec`).
pub fn parse_timestamp_full(s: &str, fmt: &str, default_year: Option<i32>) -> (r: Option<Timestamp>)
    ensures
        r == parse_ts_spec(s@, fmt@, default_year),
{
    match parse_datetime(s, fmt) {
        Some(ts) => Some(ts),
        None => {
            match parse_timestamp_prefix(s, fmt) {
                Some(ts) => Some(ts),
                None => {
                    match default_year {
                        Some(y) => {
                            let mut aug = text::i64_to_string(y as i64);
                            aug.append(" ");
                            aug.append(s);
                            let mut augfmt = String::new();
                            augfmt.append("%Y ");
                            augfmt.append(fmt);
                            proof {
                                reveal_strlit(" ");
                                reveal_strlit("%Y ");
                                assert(aug@ =~= text::dec_str_signed(y as int) + " "@ + s@);
                                assert(augfmt@ =~= "%Y "@ + fmt@);
                            }
                            match parse_datetime(aug.as_str(), augfmt.as_str()) {
                                Some(ts) => Some(ts),
                                None => parse_timestamp_prefix(aug.as_str(), augfmt.as_str()),
                            }
                        },
                        None => None,
                    }
                },
            }
        },
    }
}

/// The single-width length estimate used for content-regex
/// suggestions: a coarser per-specifier table over characters, where a
/// trailing `%` contributes nothing.
pub open spec fn est_len_simple(fmt: Seq<char>, i: int, acc: usize) -> usize
    decreases fmt.len() - i,
{
    if i < 0 || i >= fmt.len() {
        acc
    } else if fmt[i] == '%' {
        if i + 1 < fmt.len() {
            est_len_simple(fmt, i + 2, acc.saturating_add(simple_width(fmt[i + 1])))
        } else {
            acc
        }
    } else {
        est_len_simple(fmt, i + 1, acc.saturating_add(1))
    }
}

pub open spec fn simple_width(c: char) -> usize {
    if c == 'Y' {
        4
    } else if c == 'm' || c == 'd' || c == 'H' || c == 'M' || c == 'S' {
        2
    } else if c == 'b' {
        3
    } else if c == 'f' {
        3
    } else {
        2
    }
}

/// Estimates the rendered length of a format, by characters
/// (`est_len_simple`).
pub fn estimate_timestamp_len_simple(fmt: &str) -> (r: usize)
    ensures
        r == est_len_simple(fmt@, 0, 0),
{
    let n = fmt.unicode_len();
    let mut acc: usize = 0;
    let mut i: usize = 0;
    while i < n
        invariant
            i <= n,
            n == fmt@.len(),
            est_len_simple(fmt@, 0, 0) == est_len_simple(fmt@, i as int, acc),
        decreases n - i,
    {
        let c = fmt.get_char(i);
        if c == '%' {
            if i + 1 < n {
                let sp = fmt.get_char(i + 1);
                let w: usize = if sp == 'Y' {
                    4
                } else if sp == 'm' || sp == 'd' || sp == 'H' || sp == 'M' || sp == 'S' {
                    2
                } else if sp == 'b' {
                    3
                } else if sp == 'f' {
                    3
                } else {
                    2
                };
                acc = acc.saturating_add(w);
                i = i + 2;
            } else {
                i = i + 1;
                proof {
                    assert(est_len_simple(fmt@, i as int, acc) == acc);
                }
            }
        } else {
            acc = acc.saturating_add(1);
            i = i + 1;
        }
    }
    acc
}

/// Whether some prefix of the line, at least as long as the format,
/// parses under the format.
pub open spec fn try_parse_spec(line: Seq<char>, fmt: Seq<char>) -> bool {
    scan_range(line, fmt, line.len() as int, spec_min(fmt.len() as int, line.len() as int)) is Some
}

/// Whether a timestamp in the given format starts the line
/// (`try_parse_spec`).
pub fn try_parse_timestamp(line: &str, fmt: &str) -> (r: bool)
    ensures
        r == try_parse_spec(line@, fmt@),
{
    let n = line.unicode_len();
    let fl = fmt.unicode_len();
    let min_len = if fl < n {
        fl
    } else {
        n
    };
    let found = scan_range_exec(line, fmt, n, min_len);
    found.is_some()
}

} // verus!
