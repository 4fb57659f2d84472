//! Verified string utilities: lexicographic comparison, substring
//! search, whitespace splitting and decimal rendering of integers.

use vstd::prelude::*;

verus! {

/// Lexicographic comparison of two character sequences, the order
/// `str` values have in Rust (UTF-8 byte order equals code-point
/// order).  Negative, zero or positive for less, equal and greater.
pub open spec fn lex_cmp_spec(a: Seq<char>, b: Seq<char>) -> int
    decreases a.len(),
{
    if a.len() == 0 && b.len() == 0 {
        0
    } else if a.len() == 0 {
        -1
    } else if b.len() == 0 {
        1
    } else if (a[0] as int) < (b[0] as int) {
        -1
    } else if (a[0] as int) > (b[0] as int) {
        1
    } else {
        lex_cmp_spec(a.skip(1), b.skip(1))
    }
}

/// Compares two strings lexicographically by characters.
pub fn lex_cmp(a: &str, b: &str) -> (r: i8)
    ensures
        r as int == lex_cmp_spec(a@, b@),
        -1 <= r <= 1,
{
    let an = a.unicode_len();
    let bn = b.unicode_len();
    let mut i: usize = 0;
    proof {
        assert(a@.skip(0) =~= a@);
        assert(b@.skip(0) =~= b@);
    }
    loop
        invariant
            i <= an,
            i <= bn,
            an == a@.len(),
            bn == b@.len(),
            lex_cmp_spec(a@, b@) == lex_cmp_spec(a@.skip(i as int), b@.skip(i as int)),
        ensures
            lex_cmp_spec(a@, b@) == lex_cmp_spec(a@.skip(i as int), b@.skip(i as int)),
            (i == an && i == bn) || (i < an && i == bn) || (i == an && i < bn) || (i < an && i < bn
                && a@[i as int] != b@[i as int]),
        decreases an - i,
    {
        if i == an || i == bn {
            break ;
        }
        let ca = a.get_char(i);
        let cb = b.get_char(i);
        if ca != cb {
            break ;
        }
        proof {
            let av = a@.skip(i as int);
            let bv = b@.skip(i as int);
            assert(av[0] == a@[i as int] && bv[0] == b@[i as int]);
            assert(av.skip(1) =~= a@.skip(i + 1));
            assert(bv.skip(1) =~= b@.skip(i + 1));
        }
        i = i + 1;
    }
    let ghost av = a@.skip(i as int);
    let ghost bv = b@.skip(i as int);
    if i == an && i == bn {
        proof {
            assert(av.len() == 0 && bv.len() == 0);
        }
        0
    } else if i == an {
        proof {
            assert(av.len() == 0 && bv.len() > 0);
        }
        -1
    } else if i == bn {
        1
    } else {
        let ca = a.get_char(i);
        let cb = b.get_char(i);
        proof {
            assert(av[0] == a@[i as int] && bv[0] == b@[i as int]);
        }
        if (ca as u32) < (cb as u32) {
            -1
        } else {
            1
        }
    }
}

/// Whether two strings hold the same characters.
pub fn str_eq(a: &str, b: &str) -> (r: bool)
    ensures
        r == (a@ == b@),
{
    let an = a.unicode_len();
    let bn = b.unicode_len();
    if an != bn {
        return false;
    }
    let mut i: usize = 0;
    while i < an
        invariant
            i <= an,
            an == a@.len(),
            bn == b@.len(),
            an == bn,
            forall|j: int| 0 <= j < i ==> a@[j] == b@[j],
        decreases an - i,
    {
        if a.get_char(i) != b.get_char(i) {
            return false;
        }
        i = i + 1;
    }
    proof {
        assert(a@ =~= b@);
    }
    true
}

/// Whether `n` occurs as a contiguous run inside `h`, the substring
/// relation `str::contains` decides.
pub open spec fn contains_sub(h: Seq<char>, n: Seq<char>) -> bool {
    exists|i: int|
        0 <= i && i + n.len() <= h.len() && #[trigger] h.subrange(i, i + n.len()) == n
}

/// Substring search (what `str::contains` returns on the same inputs).
pub fn contains_str(h: &str, n: &str) -> (r: bool)
    ensures
        r == contains_sub(h@, n@),
{
    let hn = h.unicode_len();
    let nn = n.unicode_len();
    if nn > hn {
        proof {
            if contains_sub(h@, n@) {
                let w = choose|i: int|
                    0 <= i && i + n@.len() <= h@.len() && #[trigger] h@.subrange(
                        i,
                        i + n@.len(),
                    ) == n@;
            }
        }
        return false;
    }
    let mut start: usize = 0;
    while start <= hn - nn
        invariant
            hn == h@.len(),
            nn == n@.len(),
            nn <= hn,
            start <= hn - nn + 1,
            forall|i: int|
                0 <= i < start ==> !(#[trigger] h@.subrange(i, i + n@.len()) == n@),
        decreases hn - nn + 1 - start,
    {
        let mut j: usize = 0;
        let mut all_eq = true;
        while j < nn
            invariant
                j <= nn,
                hn == h@.len(),
                nn == n@.len(),
                start + nn <= hn,
                all_eq <==> (forall|k: int|
                    0 <= k < j ==> h@[start + k] == #[trigger] n@[k]),
            decreases nn - j,
        {
            let hc = h.get_char(start + j);
            let nc = n.get_char(j);
            if hc != nc {
                all_eq = false;
                proof {
                    assert(h@[start + j] != n@[j as int]);
                }
                j = nn;
            } else {
                proof {
                    assert(h@[start + j as int] == n@[j as int]);
                }
                j = j + 1;
            }
        }
        if all_eq {
            proof {
                let sub = h@.subrange(start as int, start + n@.len());
                assert(forall|k: int| 0 <= k < n@.len() ==> sub[k] == h@[start + k]);
                assert(sub =~= n@);
                assert(sub == n@);
            }
            return true;
        }
        proof {
            let sub = h@.subrange(start as int, start + n@.len());
            if sub == n@ {
                let ghost w = choose|k: int| 0 <= k < nn && h@[start + k] != n@[k];
                assert(sub[w] == n@[w]);
            }
        }
        start = start + 1;
    }
    proof {
        if contains_sub(h@, n@) {
            let w = choose|i: int|
                0 <= i && i + n@.len() <= h@.len() && #[trigger] h@.subrange(
                    i,
                    i + n@.len(),
                ) == n@;
            assert(w < start);
        }
    }
    false
}

/// The Unicode white-space code points, the set `char::is_whitespace`
/// tests for.
pub open spec fn is_ws_char(c: char) -> bool {
    c as int == 0x09 || c as int == 0x0a || c as int == 0x0b || c as int == 0x0c || c as int
        == 0x0d || c as int == 0x20 || c as int == 0x85 || c as int == 0xa0 || c as int == 0x1680
        || (0x2000 <= c as int && c as int <= 0x200a) || c as int == 0x2028 || c as int == 0x2029 || c as int
        == 0x202f || c as int == 0x205f || c as int == 0x3000
}

/// Whether a character is Unicode white space.
pub fn is_ws(c: char) -> (r: bool)
    ensures
        r == is_ws_char(c),
{
    let u = c as u32;
    u == 0x09 || u == 0x0a || u == 0x0b || u == 0x0c || u == 0x0d || u == 0x20 || u == 0x85 || u
        == 0xa0 || u == 0x1680 || (0x2000 <= u && u <= 0x200a) || u == 0x2028 || u == 0x2029 || u
        == 0x202f || u == 0x205f || u == 0x3000
}

/// The decimal rendering of a non-negative integer.
pub open spec fn dec_str(n: int) -> Seq<char>
    decreases n,
{
    if n <= 9 {
        seq![dec_digit_char(if n < 0 { 0 } else { n })]
    } else {
        dec_str(n / 10).push(dec_digit_char(n % 10))
    }
}

pub open spec fn dec_digit_char(d: int) -> char {
    if d == 0 {
        '0'
    } else if d == 1 {
        '1'
    } else if d == 2 {
        '2'
    } else if d == 3 {
        '3'
    } else if d == 4 {
        '4'
    } else if d == 5 {
        '5'
    } else if d == 6 {
        '6'
    } else if d == 7 {
        '7'
    } else if d == 8 {
        '8'
    } else {
        '9'
    }
}

/// The decimal rendering of a signed integer.
pub open spec fn dec_str_signed(n: int) -> Seq<char> {
    if n < 0 {
        seq!['-'] + dec_str(-n)
    } else {
        dec_str(n)
    }
}

fn push_digit(s: &mut String, d: u64)
    requires
        d < 10,
    ensures
        final(s)@ == old(s)@.push(dec_digit_char(d as int)),
{
    if d == 0 {
        s.append("0");
        proof {
            reveal_strlit("0");
            assert(final(s)@ =~= old(s)@.push('0'));
        }
    } else if d == 1 {
        s.append("1");
        proof {
            reveal_strlit("1");
            assert(final(s)@ =~= old(s)@.push('1'));
        }
    } else if d == 2 {
        s.append("2");
        proof {
            reveal_strlit("2");
            assert(final(s)@ =~= old(s)@.push('2'));
        }
    } else if d == 3 {
        s.append("3");
        proof {
            reveal_strlit("3");
            assert(final(s)@ =~= old(s)@.push('3'));
        }
    } else if d == 4 {
        s.append("4");
        proof {
            reveal_strlit("4");
            assert(final(s)@ =~= old(s)@.push('4'));
        }
    } else if d == 5 {
        s.append("5");
        proof {
            reveal_strlit("5");
            assert(final(s)@ =~= old(s)@.push('5'));
        }
    } else if d == 6 {
        s.append("6");
        proof {
            reveal_strlit("6");
            assert(final(s)@ =~= old(s)@.push('6'));
        }
    } else if d == 7 {
        s.append("7");
        proof {
            reveal_strlit("7");
            assert(final(s)@ =~= old(s)@.push('7'));
        }
    } else if d == 8 {
        s.append("8");
        proof {
            reveal_strlit("8");
            assert(final(s)@ =~= old(s)@.push('8'));
        }
    } else {
        s.append("9");
        proof {
            reveal_strlit("9");
            assert(final(s)@ =~= old(s)@.push('9'));
        }
    }
}

/// Appends the decimal rendering of `n` to `s`.
pub fn push_u64_dec(s: &mut String, n: u64)
    ensures
        final(s)@ == old(s)@ + dec_str(n as int),
    decreases n,
{
    if n >= 10 {
        push_u64_dec(s, n / 10);
        push_digit(s, n % 10);
        proof {
            assert(final(s)@ =~= old(s)@ + dec_str(n as int));
        }
    } else {
        push_digit(s, n);
        proof {
            assert(final(s)@ =~= old(s)@ + dec_str(n as int));
        }
    }
}

/// The decimal rendering of an unsigned 64-bit integer.
pub fn u64_to_string(n: u64) -> (r: String)
    ensures
        r@ == dec_str(n as int),
{
    let mut s = String::new();
    push_u64_dec(&mut s, n);
    proof {
        assert(s@ =~= dec_str(n as int));
    }
    s
}

/// The decimal rendering of a signed 64-bit integer.
pub fn i64_to_string(n: i64) -> (r: String)
    ensures
        r@ == dec_str_signed(n as int),
{
    if n < 0 {
        let mut s = String::new();
        s.append("-");
        let mag: u64 = if n == i64::MIN {
            9223372036854775808u64
        } else {
            (-n) as u64
        };
        push_u64_dec(&mut s, mag);
        proof {
            reveal_strlit("-");
            assert(s@ =~= dec_str_signed(n as int));
        }
        s
    } else {
        let r = u64_to_string(n as u64);
        r
    }
}

} // verus!
