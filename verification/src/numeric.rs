//! Floating-point state values, carried as opaque `serde_json::Number`
//! values, and verified decimal parsing of integers.
//!
//! Floating point is never interpreted here: every operation on a
//! float goes through a trusted wrapper around `serde_json::Number`,
//! and contracts speak of a number through its canonical JSON
//! rendering (`num_rep`).

use vstd::prelude::*;

verus! {

#[verifier::external_type_specification]
#[verifier::external_body]
pub struct ExNumber(serde_json::Number);

/// Relies on `serde_json::Number`'s derived `Clone`: the clone is the
/// same value.
pub assume_specification[ <serde_json::Number as Clone>::clone ](n: &serde_json::Number) -> (res:
    serde_json::Number)
    ensures
        res == *n,
;

/// The canonical JSON rendering of a `serde_json::Number` (what
/// `serde_json` serializes it to).  It determines the number
/// completely, so contracts use it as the number's model.
pub uninterp spec fn num_rep(n: serde_json::Number) -> Seq<char>;

/// What parsing a string as a JSON number yields: `None` when the
/// string is not a JSON number, otherwise the rendering of the parsed
/// number.
pub uninterp spec fn float_of_str(s: Seq<char>) -> Option<Seq<char>>;

/// The rendering of the number a 64-bit signed integer converts to.
pub uninterp spec fn float_of_int(i: i64) -> Seq<char>;

/// The rendering of the IEEE-754 double sum of two numbers, or `None`
/// when the sum is not finite.
pub uninterp spec fn float_sum(a: Seq<char>, b: Seq<char>) -> Option<Seq<char>>;

/// How the IEEE-754 doubles denoted by two number renderings compare:
/// negative, zero or positive for less, equal and greater.  JSON
/// numbers are always finite, so the comparison is total.
pub uninterp spec fn float_cmp(a: Seq<char>, b: Seq<char>) -> int;

/// Relies on `serde_json::Number`'s `FromStr`: parses a string in JSON
/// number syntax (optional minus sign, digits, fraction, exponent).
#[verifier::external_body]
pub fn num_from_str(s: &str) -> (r: Option<serde_json::Number>)
    ensures
        match r {
            Some(n) => float_of_str(s@) == Some(num_rep(n)),
            None => float_of_str(s@) is None,
        },
{
    s.parse::<serde_json::Number>().ok()
}

/// Relies on `serde_json::Number::from::<i64>`: represents the integer
/// exactly as a JSON number.
#[verifier::external_body]
pub fn num_from_i64(i: i64) -> (r: serde_json::Number)
    ensures
        num_rep(r) == float_of_int(i),
{
    serde_json::Number::from(i)
}

/// Relies on `serde_json::Number::as_f64` and `from_f64`, and on
/// IEEE-754 double addition: returns the double sum of the two
/// numbers, or `None` when the sum is not a finite double.
#[verifier::external_body]
pub fn num_add(a: &serde_json::Number, b: &serde_json::Number) -> (r: Option<serde_json::Number>)
    ensures
        match r {
            Some(n) => float_sum(num_rep(*a), num_rep(*b)) == Some(num_rep(n)),
            None => float_sum(num_rep(*a), num_rep(*b)) is None,
        },
{
    match (a.as_f64(), b.as_f64()) {
        (Some(x), Some(y)) => serde_json::Number::from_f64(x + y),
        _ => None,
    }
}

/// Relies on `serde_json::Number::as_f64` and IEEE-754 double
/// comparison: JSON numbers are finite, so comparing the denoted
/// doubles is total.
#[verifier::external_body]
pub fn num_cmp(a: &serde_json::Number, b: &serde_json::Number) -> (r: i8)
    ensures
        -1 <= r <= 1,
        r < 0 <==> float_cmp(num_rep(*a), num_rep(*b)) < 0,
        r == 0 <==> float_cmp(num_rep(*a), num_rep(*b)) == 0,
        r > 0 <==> float_cmp(num_rep(*a), num_rep(*b)) > 0,
{
    match (a.as_f64(), b.as_f64()) {
        (Some(x), Some(y)) => {
            if x < y {
                -1
            } else if x > y {
                1
            } else {
                0
            }
        },
        _ => 0,
    }
}

/// Relies on `serde_json::Number`'s `Display`: renders the number in
/// its canonical JSON form.
#[verifier::external_body]
pub fn num_to_string(n: &serde_json::Number) -> (r: String)
    ensures
        r@ == num_rep(*n),
{
    n.to_string()
}

/// A decimal (ASCII) digit.
pub open spec fn is_dec_digit(c: char) -> bool {
    48 <= c as int <= 57
}

pub open spec fn dec_digit_val(c: char) -> int {
    c as int - 48
}

/// The non-negative integer a string of decimal digits denotes.
pub open spec fn digits_val(s: Seq<char>) -> int
    decreases s.len(),
{
    if s.len() == 0 {
        0
    } else {
        digits_val(s.drop_last()) * 10 + dec_digit_val(s.last())
    }
}

pub open spec fn all_dec_digits(s: Seq<char>) -> bool {
    forall|i: int| 0 <= i < s.len() ==> is_dec_digit(#[trigger] s[i])
}

/// The range test of decimal parsing once sign and digits are known.
pub open spec fn parse_i64_digits(ds: Seq<char>, neg: bool) -> Option<i64> {
    if ds.len() == 0 || !all_dec_digits(ds) {
        None
    } else {
        let v = if neg {
            -digits_val(ds)
        } else {
            digits_val(ds)
        };
        if i64::MIN <= v <= i64::MAX {
            Some(v as i64)
        } else {
            None
        }
    }
}

/// What `str::parse::<i64>` accepts: an optional sign followed by at
/// least one decimal digit, whose value fits in an `i64`.
pub open spec fn parse_i64_spec(s: Seq<char>) -> Option<i64> {
    let neg = s.len() > 0 && s[0] == '-';
    let ds = if s.len() > 0 && (s[0] == '-' || s[0] == '+') {
        s.skip(1)
    } else {
        s
    };
    parse_i64_digits(ds, neg)
}

proof fn lemma_digits_val_nonneg(s: Seq<char>)
    requires
        all_dec_digits(s),
    ensures
        digits_val(s) >= 0,
    decreases s.len(),
{
    if s.len() > 0 {
        assert(all_dec_digits(s.drop_last()));
        lemma_digits_val_nonneg(s.drop_last());
        assert(digits_val(s.drop_last()) * 10 >= 0) by (nonlinear_arith)
            requires
                digits_val(s.drop_last()) >= 0,
        ;
    }
}

/// Extending a digit string never shrinks its value.
proof fn lemma_digits_val_monotone(s: Seq<char>, n: int)
    requires
        all_dec_digits(s),
        0 <= n <= s.len(),
    ensures
        digits_val(s.take(n)) <= digits_val(s),
    decreases s.len() - n,
{
    if n < s.len() {
        lemma_digits_val_monotone(s, n + 1);
        let t = s.take(n + 1);
        assert(t.drop_last() =~= s.take(n));
        assert(all_dec_digits(s.take(n)));
        lemma_digits_val_nonneg(s.take(n));
        assert(digits_val(s.take(n)) <= digits_val(s.take(n)) * 10) by (nonlinear_arith)
            requires
                digits_val(s.take(n)) >= 0,
        ;
    } else {
        assert(s.take(n) =~= s);
    }
}

/// If the running value has already left the `i64` range after a
/// prefix of the digits, the whole string is out of range either way.
proof fn lemma_overflow_out_of_range(ds: Seq<char>, k: int, neg: bool)
    requires
        0 < k <= ds.len(),
        all_dec_digits(ds.take(k)),
        digits_val(ds.take(k)) > i64::MAX + 1,
    ensures
        parse_i64_digits(ds, neg) is None,
{
    if all_dec_digits(ds) {
        lemma_digits_val_monotone(ds, k);
    }
}

/// Parses a string as a 64-bit signed integer, exactly as
/// `str::parse::<i64>` does: optional sign, then decimal digits,
/// rejecting anything else and values out of range.
pub fn parse_i64(s: &str) -> (r: Option<i64>)
    ensures
        r == parse_i64_spec(s@),
{
    let n = s.unicode_len();
    let ghost sv = s@;
    if n == 0 {
        return None;
    }
    let first = s.get_char(0);
    let neg = first == '-';
    let start: usize = if first == '-' || first == '+' {
        1
    } else {
        0
    };
    let ghost ds = if first == '-' || first == '+' {
        sv.skip(1)
    } else {
        sv
    };
    proof {
        assert(sv.skip(0) =~= sv);
    }
    if n == start {
        return None;
    }
    // Accumulate negatively so that i64::MIN stays representable.
    let mut acc: i64 = 0;
    let mut i: usize = start;
    while i < n
        invariant
            start <= i <= n,
            sv == s@,
            n == sv.len(),
            start == 0 || start == 1,
            start < n,
            first == sv[0],
            neg == (sv[0] == '-'),
            (start == 1) == (sv[0] == '-' || sv[0] == '+'),
            ds == sv.skip(start as int),
            start == 0 ==> ds == sv,
            acc <= 0,
            acc == -digits_val(ds.take(i - start)),
            all_dec_digits(ds.take(i - start)),
        decreases n - i,
    {
        let c = s.get_char(i);
        let cu = c as u32;
        let ghost pre = ds.take(i - start);
        let ghost ext = ds.take(i + 1 - start);
        proof {
            assert(ds[i - start] == sv[i as int]);
            assert(ext.drop_last() =~= pre);
            assert(ext.last() == ds[i - start]);
        }
        if cu < 48 || cu > 57 {
            assert(!is_dec_digit(ds[i - start]));
            assert(!all_dec_digits(ds));
            return None;
        }
        let d: i64 = cu as i64 - 48;
        let ghost over = digits_val(pre) * 10 + dec_digit_val(ds[i - start]) > i64::MAX + 1;
        proof {
            lemma_digits_val_nonneg(pre);
            if acc < i64::MIN / 10 {
                assert(digits_val(ext) > i64::MAX + 1) by (nonlinear_arith)
                    requires
                        digits_val(ext) == digits_val(pre) * 10 + dec_digit_val(ds[i - start]),
                        digits_val(pre) >= 0,
                        dec_digit_val(ds[i - start]) >= 0,
                        -digits_val(pre) < i64::MIN / 10,
                        i64::MIN == -i64::MAX - 1,
                ;
            }
        }
        let acc10 = match acc.checked_mul(10) {
            Some(v) => v,
            None => {
                proof {
                    assert(digits_val(ext) > i64::MAX + 1) by (nonlinear_arith)
                        requires
                            digits_val(ext) == digits_val(pre) * 10 + dec_digit_val(ds[i - start]),
                            digits_val(pre) >= 0,
                            dec_digit_val(ds[i - start]) >= 0,
                            acc == -digits_val(pre),
                            !(i64::MIN <= acc * 10 <= i64::MAX),
                            i64::MIN == -i64::MAX - 1,
                    ;
                    lemma_overflow_out_of_range(ds, i + 1 - start, neg);
                }
                return None;
            },
        };
        let acc2 = match acc10.checked_sub(d) {
            Some(v) => v,
            None => {
                proof {
                    assert(digits_val(ext) > i64::MAX + 1) by (nonlinear_arith)
                        requires
                            digits_val(ext) == digits_val(pre) * 10 + dec_digit_val(ds[i - start]),
                            digits_val(pre) >= 0,
                            acc10 == acc * 10,
                            acc == -digits_val(pre),
                            acc <= 0,
                            d == dec_digit_val(ds[i - start]),
                            0 <= d <= 9,
                            !(i64::MIN <= acc10 - d <= i64::MAX),
                            i64::MIN == -i64::MAX - 1,
                    ;
                    lemma_overflow_out_of_range(ds, i + 1 - start, neg);
                }
                return None;
            },
        };
        proof {
            assert(acc2 == -digits_val(ext)) by (nonlinear_arith)
                requires
                    acc2 == acc * 10 - d,
                    acc == -digits_val(pre),
                    d == dec_digit_val(ds[i - start]),
                    digits_val(ext) == digits_val(pre) * 10 + dec_digit_val(ds[i - start]),
            ;
            lemma_digits_val_nonneg(ext);
        }
        acc = acc2;
        i = i + 1;
    }
    proof {
        assert(ds.take(n - start) =~= ds);
    }
    if neg {
        Some(acc)
    } else {
        if acc == i64::MIN {
            assert(digits_val(ds) == i64::MAX + 1);
            None
        } else {
            Some(-acc)
        }
    }
}

} // verus!
