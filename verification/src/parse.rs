//! Parsing of the command-line style inputs: decimal integers and
//! separator-delimited pairs such as `"400x300"`.

use vstd::prelude::*;

verus! {

/// A decimal digit character.
pub open spec fn is_dec_digit(c: char) -> bool {
    48 <= c as u32 <= 57
}

/// Numeric value of a decimal digit character.
pub open spec fn digit_val(c: char) -> int {
    c as u32 - 48
}

/// The sequence is a nonempty run of decimal digits.
pub open spec fn is_digits(s: Seq<char>) -> bool {
    s.len() > 0 && forall|i: int| 0 <= i < s.len() ==> is_dec_digit(s[i])
}

/// Value of a run of decimal digits, most significant first.
pub open spec fn dec_val(s: Seq<char>) -> int
    decreases s.len(),
{
    if s.len() == 0 {
        0
    } else {
        dec_val(s.drop_last()) * 10 + digit_val(s.last())
    }
}

proof fn lemma_dec_val_nonneg(s: Seq<char>)
    requires
        forall|i: int| 0 <= i < s.len() ==> is_dec_digit(s[i]),
    ensures
        dec_val(s) >= 0,
    decreases s.len(),
{
    if s.len() > 0 {
        lemma_dec_val_nonneg(s.drop_last());
    }
}

/// Appending digits to a digit string never decreases its value.
proof fn lemma_dec_val_prefix(s: Seq<char>, k: int)
    requires
        0 <= k <= s.len(),
        forall|i: int| 0 <= i < s.len() ==> is_dec_digit(s[i]),
    ensures
        dec_val(s) >= dec_val(s.subrange(0, k)),
    decreases s.len() - k,
{
    if k < s.len() {
        assert(s.subrange(0, k + 1).drop_last() =~= s.subrange(0, k));
        lemma_dec_val_nonneg(s.subrange(0, k));
        assert(dec_val(s.subrange(0, k + 1)) >= dec_val(s.subrange(0, k)));
        lemma_dec_val_prefix(s, k + 1);
    } else {
        assert(s.subrange(0, k) =~= s);
    }
}

/// Meaning of a bare digit run: its value when it is one and fits in a
/// `u64`, nothing otherwise.
pub open spec fn digits_u64_spec(s: Seq<char>) -> Option<u64> {
    if is_digits(s) && dec_val(s) <= u64::MAX {
        Some(dec_val(s) as u64)
    } else {
        None
    }
}

/// Parse the digit run `s[start..]`, rejecting anything that is not a
/// nonempty all-digit suffix or whose value overflows a `u64`.
fn parse_digits_u64(s: &str, start: usize) -> (r: Option<u64>)
    requires
        start <= s@.len(),
    ensures
        r == digits_u64_spec(s@.subrange(start as int, s@.len() as int)),
{
    let ghost t = s@.subrange(start as int, s@.len() as int);
    let n: usize = s.unicode_len();
    if start == n {
        return None;
    }
    let mut acc: u64 = 0;
    let mut i: usize = start;
    while i < n
        invariant
            start <= i <= n,
            start < n,
            n == s@.len(),
            t == s@.subrange(start as int, n as int),
            forall|j: int| 0 <= j < i - start ==> is_dec_digit(t[j]),
            acc == dec_val(t.subrange(0, i - start)),
        decreases n - i,
    {
        let c: char = s.get_char(i);
        let code: u32 = c as u32;
        proof {
            assert(t[i - start] == s@[i as int]);
        }
        if code < 48 || code > 57 {
            assert(!is_dec_digit(t[i - start]));
            return None;
        }
        let d: u64 = (code - 48) as u64;
        if acc > (u64::MAX - d) / 10 {
            proof {
                let m = (u64::MAX - d) as int;
                assert(m == 10 * (m / 10) + m % 10) by (nonlinear_arith);
                assert(acc * 10 + d > u64::MAX);
                assert(t.subrange(0, i - start + 1).drop_last() =~= t.subrange(0, i - start));
                assert(dec_val(t.subrange(0, i - start + 1)) == acc * 10 + d);
                if is_digits(t) {
                    lemma_dec_val_prefix(t, i - start + 1);
                }
            }
            return None;
        }
        proof {
            assert(t.subrange(0, i - start + 1).drop_last() =~= t.subrange(0, i - start));
        }
        acc = acc * 10 + d;
        i = i + 1;
    }
    proof {
        assert(t.subrange(0, n - start) =~= t);
        assert(is_digits(t));
    }
    Some(acc)
}

/// Meaning of parsing an unsigned decimal string into a `usize`: an
/// optional leading `'+'`, then digits; nothing on any other shape or on
/// overflow.
pub open spec fn parse_usize_spec(s: Seq<char>) -> Option<usize> {
    let t = if s.len() > 0 && s[0] == '+' {
        s.drop_first()
    } else {
        s
    };
    if is_digits(t) && dec_val(t) <= usize::MAX {
        Some(dec_val(t) as usize)
    } else {
        None
    }
}

/// Parse an unsigned decimal string into a `usize`.
pub fn parse_usize(s: &str) -> (r: Option<usize>)
    ensures
        r == parse_usize_spec(s@),
{
    let n: usize = s.unicode_len();
    let start: usize = if n > 0 && s.get_char(0) == '+' {
        1
    } else {
        0
    };
    proof {
        let t = if s@.len() > 0 && s@[0] == '+' {
            s@.drop_first()
        } else {
            s@
        };
        if start == 1 {
            assert(s@.drop_first() =~= s@.subrange(1, s@.len() as int));
        } else {
            assert(s@ =~= s@.subrange(0, s@.len() as int));
        }
        assert(t == s@.subrange(start as int, s@.len() as int));
        if is_digits(t) {
            lemma_dec_val_nonneg(t);
        }
    }
    match parse_digits_u64(s, start) {
        Some(v) => if v <= usize::MAX as u64 {
            Some(v as usize)
        } else {
            None
        },
        None => None,
    }
}

/// Meaning of parsing an unsigned decimal string into a `u32`.
pub open spec fn parse_u32_spec(s: Seq<char>) -> Option<u32> {
    let t = if s.len() > 0 && s[0] == '+' {
        s.drop_first()
    } else {
        s
    };
    if is_digits(t) && dec_val(t) <= u32::MAX {
        Some(dec_val(t) as u32)
    } else {
        None
    }
}

/// Parse an unsigned decimal string into a `u32`.
pub fn parse_u32(s: &str) -> (r: Option<u32>)
    ensures
        r == parse_u32_spec(s@),
{
    let n: usize = s.unicode_len();
    let start: usize = if n > 0 && s.get_char(0) == '+' {
        1
    } else {
        0
    };
    proof {
        if start == 1 {
            assert(s@.drop_first() =~= s@.subrange(1, s@.len() as int));
        } else {
            assert(s@ =~= s@.subrange(0, s@.len() as int));
        }
        let t = s@.subrange(start as int, s@.len() as int);
        if is_digits(t) {
            lemma_dec_val_nonneg(t);
        }
    }
    match parse_digits_u64(s, start) {
        Some(v) => if v <= u32::MAX as u64 {
            Some(v as u32)
        } else {
            None
        },
        None => None,
    }
}

/// Meaning of parsing a signed decimal string into an `i32`: an optional
/// leading `'-'` or `'+'`, then digits; nothing on any other shape or when
/// the value leaves the `i32` range.
pub open spec fn parse_i32_spec(s: Seq<char>) -> Option<i32> {
    if s.len() > 0 && s[0] == '-' {
        let t = s.drop_first();
        if is_digits(t) && dec_val(t) <= 0x8000_0000 {
            Some((0 - dec_val(t)) as i32)
        } else {
            None
        }
    } else {
        let t = if s.len() > 0 && s[0] == '+' {
            s.drop_first()
        } else {
            s
        };
        if is_digits(t) && dec_val(t) <= i32::MAX {
            Some(dec_val(t) as i32)
        } else {
            None
        }
    }
}

/// Parse a signed decimal string into an `i32`.
pub fn parse_i32(s: &str) -> (r: Option<i32>)
    ensures
        r == parse_i32_spec(s@),
{
    let n: usize = s.unicode_len();
    if n > 0 && s.get_char(0) == '-' {
        proof {
            assert(s@.drop_first() =~= s@.subrange(1, s@.len() as int));
            let t = s@.subrange(1, s@.len() as int);
            if is_digits(t) {
                lemma_dec_val_nonneg(t);
            }
        }
        match parse_digits_u64(s, 1) {
            Some(v) => if v < 0x8000_0000u64 {
                Some(0 - (v as i32))
            } else if v == 0x8000_0000u64 {
                Some(i32::MIN)
            } else {
                None
            },
            None => None,
        }
    } else {
        let start: usize = if n > 0 && s.get_char(0) == '+' {
            1
        } else {
            0
        };
        proof {
            if start == 1 {
                assert(s@.drop_first() =~= s@.subrange(1, s@.len() as int));
            } else {
                assert(s@ =~= s@.subrange(0, s@.len() as int));
            }
            let t = s@.subrange(start as int, s@.len() as int);
            if is_digits(t) {
                lemma_dec_val_nonneg(t);
            }
        }
        match parse_digits_u64(s, start) {
            Some(v) => if v <= i32::MAX as u64 {
                Some(v as i32)
            } else {
                None
            },
            None => None,
        }
    }
}

/// Index of the first occurrence of `sep` in `s`, if it occurs at all.
pub open spec fn find_char(s: Seq<char>, sep: char) -> Option<int>
    decreases s.len(),
{
    if s.len() == 0 {
        None
    } else if s[0] == sep {
        Some(0)
    } else {
        match find_char(s.drop_first(), sep) {
            None => None,
            Some(i) => Some(i + 1),
        }
    }
}

/// `find_char` returns the least index holding `sep`, or nothing when
/// `sep` is absent.
pub proof fn lemma_find_char(s: Seq<char>, sep: char)
    ensures
        match find_char(s, sep) {
            Some(i) => 0 <= i < s.len() && s[i] == sep && (forall|j: int|
                0 <= j < i ==> s[j] != sep),
            None => forall|j: int| 0 <= j < s.len() ==> s[j] != sep,
        },
    decreases s.len(),
{
    if s.len() > 0 && s[0] != sep {
        lemma_find_char(s.drop_first(), sep);
        match find_char(s.drop_first(), sep) {
            Some(i) => {
                assert(s[i + 1] == s.drop_first()[i]);
                assert forall|j: int| 0 <= j < i + 1 implies s[j] != sep by {
                    if j > 0 {
                        assert(s[j] == s.drop_first()[j - 1]);
                    }
                }
            },
            None => {
                assert forall|j: int| 0 <= j < s.len() implies s[j] != sep by {
                    if j > 0 {
                        assert(s[j] == s.drop_first()[j - 1]);
                    }
                }
            },
        }
    }
}

/// The two sides of `s` around the first occurrence of `sep`.
pub open spec fn split_pair_spec(s: Seq<char>, sep: char) -> Option<(Seq<char>, Seq<char>)> {
    match find_char(s, sep) {
        None => None,
        Some(i) => Some((s.subrange(0, i), s.subrange(i + 1, s.len() as int))),
    }
}

/// Split `s` at the first occurrence of `sep` into the text before and
/// after it; `None` when `sep` does not occur.
pub fn split_pair(s: &str, sep: char) -> (r: Option<(String, String)>)
    ensures
        r is Some <==> split_pair_spec(s@, sep) is Some,
        r matches Some(t) ==> (split_pair_spec(s@, sep) matches Some(u) && t.0@ == u.0 && t.1@
            == u.1),
{
    let n: usize = s.unicode_len();
    let mut i: usize = 0;
    while i < n
        invariant
            0 <= i <= n,
            n == s@.len(),
            forall|j: int| 0 <= j < i ==> s@[j] != sep,
        decreases n - i,
    {
        if s.get_char(i) == sep {
            let left: String = s.substring_char(0, i).to_owned();
            let right: String = s.substring_char(i + 1, n).to_owned();
            proof {
                lemma_find_char(s@, sep);
            }
            return Some((left, right));
        }
        i = i + 1;
    }
    proof {
        lemma_find_char(s@, sep);
    }
    None
}

/// Meaning of parsing `"<A><sep><B>"` into two `i32` values: nothing when
/// `sep` is absent or either side is not a signed decimal number.
pub open spec fn parse_pair_i32_spec(s: Seq<char>, sep: char) -> Option<(i32, i32)> {
    match split_pair_spec(s, sep) {
        None => None,
        Some(u) => match (parse_i32_spec(u.0), parse_i32_spec(u.1)) {
            (Some(a), Some(b)) => Some((a, b)),
            _ => None,
        },
    }
}

/// Parse `"<A><sep><B>"` into two `i32` values.
pub fn parse_pair_i32(s: &str, sep: char) -> (r: Option<(i32, i32)>)
    ensures
        r == parse_pair_i32_spec(s@, sep),
{
    match split_pair(s, sep) {
        None => None,
        Some((a, b)) => match (parse_i32(a.as_str()), parse_i32(b.as_str())) {
            (Some(x), Some(y)) => Some((x, y)),
            _ => None,
        },
    }
}

/// Meaning of parsing `"<A><sep><B>"` into two `u32` values.
pub open spec fn parse_pair_u32_spec(s: Seq<char>, sep: char) -> Option<(u32, u32)> {
    match split_pair_spec(s, sep) {
        None => None,
        Some(u) => match (parse_u32_spec(u.0), parse_u32_spec(u.1)) {
            (Some(a), Some(b)) => Some((a, b)),
            _ => None,
        },
    }
}

/// Parse `"<A><sep><B>"` into two `u32` values.
pub fn parse_pair_u32(s: &str, sep: char) -> (r: Option<(u32, u32)>)
    ensures
        r == parse_pair_u32_spec(s@, sep),
{
    match split_pair(s, sep) {
        None => None,
        Some((a, b)) => match (parse_u32(a.as_str()), parse_u32(b.as_str())) {
            (Some(x), Some(y)) => Some((x, y)),
            _ => None,
        },
    }
}

/// Meaning of parsing `"<A><sep><B>"` into two `usize` values, as the
/// image dimensions `"<width>x<height>"` are given.
pub open spec fn parse_pair_usize_spec(s: Seq<char>, sep: char) -> Option<(usize, usize)> {
    match split_pair_spec(s, sep) {
        None => None,
        Some(u) => match (parse_usize_spec(u.0), parse_usize_spec(u.1)) {
            (Some(a), Some(b)) => Some((a, b)),
            _ => None,
        },
    }
}

/// Parse `"<A><sep><B>"` into two `usize` values.
pub fn parse_pair_usize(s: &str, sep: char) -> (r: Option<(usize, usize)>)
    ensures
        r == parse_pair_usize_spec(s@, sep),
{
    match split_pair(s, sep) {
        None => None,
        Some((a, b)) => match (parse_usize(a.as_str()), parse_usize(b.as_str())) {
            (Some(x), Some(y)) => Some((x, y)),
            _ => None,
        },
    }
}

} // verus!
