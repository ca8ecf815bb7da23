//! Decimal numbers as text: the character-level grammar of the matrix file
//! format, with verified parsing and rendering routines.

use vstd::prelude::*;

verus! {

/// The blank characters that separate numbers in the text format.
pub open spec fn is_space_char(c: char) -> bool {
    c == ' ' || c == '\t' || c == '\n' || c == '\r' || c == '\u{000b}' || c == '\u{000c}'
}

pub open spec fn is_digit_char(c: char) -> bool {
    '0' <= c && c <= '9'
}

/// Numeric value of a single decimal digit character.
pub open spec fn digit_val(c: char) -> nat {
    ((c as u32) - 48) as nat
}

/// Numeric value of a sequence of decimal digits, most significant first.
pub open spec fn digits_val(s: Seq<char>) -> nat
    decreases s.len(),
{
    if s.len() == 0 {
        0
    } else {
        digits_val(s.drop_last()) * 10 + digit_val(s.last())
    }
}

pub open spec fn all_digits(s: Seq<char>) -> bool {
    forall|i: int| 0 <= i < s.len() ==> is_digit_char(#[trigger] s[i])
}

/// An unsigned decimal numeral: an optional plus sign followed by
/// at least one digit.
pub open spec fn is_uint_str(s: Seq<char>) -> bool {
    if s.len() > 0 && s[0] == '+' {
        s.len() >= 2 && all_digits(s.skip(1))
    } else {
        s.len() >= 1 && all_digits(s)
    }
}

pub open spec fn uint_str_val(s: Seq<char>) -> nat {
    if s.len() > 0 && s[0] == '+' {
        digits_val(s.skip(1))
    } else {
        digits_val(s)
    }
}

/// A signed decimal numeral: an optional sign followed by at least one digit.
pub open spec fn is_int_str(s: Seq<char>) -> bool {
    if s.len() > 0 && (s[0] == '+' || s[0] == '-') {
        s.len() >= 2 && all_digits(s.skip(1))
    } else {
        s.len() >= 1 && all_digits(s)
    }
}

pub open spec fn int_str_val(s: Seq<char>) -> int {
    if s.len() > 0 && s[0] == '-' {
        -(digits_val(s.skip(1)) as int)
    } else {
        uint_str_val(s) as int
    }
}

/// A numeral's value never shrinks when more digits follow: the value of a
/// prefix is at most the value of the whole.
proof fn lemma_digits_prefix_le(s: Seq<char>, k: int)
    requires
        0 <= k <= s.len(),
    ensures
        digits_val(s.take(k)) <= digits_val(s),
    decreases s.len() - k,
{
    if k < s.len() {
        lemma_digits_prefix_le(s, k + 1);
        assert(s.take(k + 1).drop_last() =~= s.take(k));
        assert(digits_val(s.take(k + 1)) == digits_val(s.take(k)) * 10 + digit_val(
            s.take(k + 1).last(),
        ));
    } else {
        assert(s.take(k) =~= s);
    }
}

/// `v * 10 + d` stays within `limit` exactly when `v` is at most
/// `(limit - d) / 10`.
proof fn lemma_mul10_bound(v: nat, d: nat, limit: nat)
    by (nonlinear_arith)
    requires
        d <= limit,
    ensures
        v * 10 + d <= limit <==> v <= (limit - d) / 10,
{
}

/// Parses the run of digits in `s` from position `start` to the end of the
/// string, refusing any non-digit and any value above `limit`.
fn parse_digits_from(s: &str, start: usize, limit: u64) -> (r: Option<u64>)
    requires
        start <= s@.len(),
    ensures
        r is Some <==> (start < s@.len() && all_digits(s@.skip(start as int)) && digits_val(
            s@.skip(start as int),
        ) <= limit),
        r matches Some(v) ==> v as nat == digits_val(s@.skip(start as int)),
{
    let len = s.unicode_len();
    if start >= len {
        return None;
    }
    let ghost digits = s@.skip(start as int);
    let mut val: u64 = 0;
    let mut i: usize = start;
    while i < len
        invariant
            start <= i <= len,
            len == s@.len(),
            digits == s@.skip(start as int),
            all_digits(digits.take(i - start)),
            val as nat == digits_val(digits.take(i - start)),
            val <= limit,
        decreases len - i,
    {
        let c = s.get_char(i);
        let u = c as u32;
        if u < 48 || u > 57 {
            assert(!is_digit_char(digits[i - start]));
            return None;
        }
        let d = (u - 48) as u64;
        assert(digit_val(digits[i - start]) == d);
        let ghost prefix = digits.take(i - start);
        let ghost prefix1 = digits.take(i + 1 - start);
        assert(prefix1.drop_last() =~= prefix);
        assert(prefix1.last() == digits[i - start]);
        assert(digits_val(prefix1) == val * 10 + d);
        if d > limit {
            proof {
                lemma_digits_prefix_le(digits, i + 1 - start);
                assert(digits.take(digits.len() as int) =~= digits);
            }
            return None;
        }
        proof {
            lemma_mul10_bound(val as nat, d as nat, limit as nat);
        }
        if val > (limit - d) / 10 {
            proof {
                lemma_digits_prefix_le(digits, i + 1 - start);
                assert(digits.take(digits.len() as int) =~= digits);
            }
            return None;
        }
        val = val * 10 + d;
        i += 1;
    }
    proof {
        assert(digits.take(digits.len() as int) =~= digits);
    }
    Some(val)
}

/// Parses an unsigned decimal numeral, as the row and column counts of the
/// file format are written.
pub fn parse_usize(s: &str) -> (r: Option<usize>)
    ensures
        r is Some <==> (is_uint_str(s@) && uint_str_val(s@) <= usize::MAX),
        r matches Some(v) ==> v as nat == uint_str_val(s@),
{
    let len = s.unicode_len();
    if len == 0 {
        return None;
    }
    let c0 = s.get_char(0);
    let start: usize = if c0 == '+' {
        1
    } else {
        0
    };
    proof {
        if start == 0 {
            assert(s@.skip(0) =~= s@);
        }
    }
    match parse_digits_from(s, start, usize::MAX as u64) {
        Some(v) => Some(v as usize),
        None => None,
    }
}

/// Parses a signed decimal numeral as a matrix element.
pub fn parse_i64(s: &str) -> (r: Option<i64>)
    ensures
        r is Some <==> (is_int_str(s@) && i64::MIN <= int_str_val(s@) <= i64::MAX),
        r matches Some(v) ==> v as int == int_str_val(s@),
{
    let len = s.unicode_len();
    if len == 0 {
        return None;
    }
    let c0 = s.get_char(0);
    let neg = c0 == '-';
    let start: usize = if neg || c0 == '+' {
        1
    } else {
        0
    };
    let limit: u64 = if neg {
        9223372036854775808u64
    } else {
        9223372036854775807u64
    };
    proof {
        if start == 0 {
            assert(s@.skip(0) =~= s@);
        }
    }
    match parse_digits_from(s, start, limit) {
        Some(mag) => {
            if neg {
                Some((-(mag as i128)) as i64)
            } else {
                Some(mag as i64)
            }
        },
        None => None,
    }
}

/// The position just past the blank-free token that starts at `i`: the first
/// position at or after `i` holding a blank, or the end of the text.
pub open spec fn token_end(s: Seq<char>, i: int) -> int
    decreases s.len() - i
        when 0 <= i <= s.len()
{
    if i >= s.len() || is_space_char(s[i]) {
        i
    } else {
        token_end(s, i + 1)
    }
}

proof fn lemma_token_end_props(s: Seq<char>, i: int)
    requires
        0 <= i <= s.len(),
    ensures
        i <= token_end(s, i) <= s.len(),
        forall|j: int| i <= j < token_end(s, i) ==> !is_space_char(#[trigger] s[j]),
        token_end(s, i) < s.len() ==> is_space_char(s[token_end(s, i)]),
        i < s.len() && !is_space_char(s[i]) ==> token_end(s, i) > i,
    decreases s.len() - i,
{
    if i < s.len() && !is_space_char(s[i]) {
        lemma_token_end_props(s, i + 1);
    }
}

proof fn lemma_token_end_eq(s: Seq<char>, i: int, j: int)
    requires
        0 <= i <= j <= s.len(),
        forall|m: int| i <= m < j ==> !is_space_char(#[trigger] s[m]),
        j == s.len() || is_space_char(s[j]),
    ensures
        token_end(s, i) == j,
    decreases j - i,
{
    if i < j {
        lemma_token_end_eq(s, i + 1, j);
    }
}

/// The blank-separated tokens of `s` from position `i` on, in order.
pub open spec fn split_ws_from(s: Seq<char>, i: int) -> Seq<Seq<char>>
    decreases s.len() - i
        when 0 <= i <= s.len()
        via split_ws_from_dec
{
    if i >= s.len() {
        Seq::empty()
    } else if is_space_char(s[i]) {
        split_ws_from(s, i + 1)
    } else {
        seq![s.subrange(i, token_end(s, i))] + split_ws_from(s, token_end(s, i))
    }
}

#[via_fn]
proof fn split_ws_from_dec(s: Seq<char>, i: int) {
    if 0 <= i < s.len() && !is_space_char(s[i]) {
        lemma_token_end_props(s, i);
    }
}

/// The blank-separated tokens of `s`, as `str::split_whitespace` lists them.
pub open spec fn split_ws(s: Seq<char>) -> Seq<Seq<char>> {
    split_ws_from(s, 0)
}

fn is_space(c: char) -> (b: bool)
    ensures
        b == is_space_char(c),
{
    c == ' ' || c == '\t' || c == '\n' || c == '\r' || c == '\u{000b}' || c == '\u{000c}'
}

/// Splits `s` into its blank-separated tokens.
pub fn tokenize<'a>(s: &'a str) -> (r: Vec<&'a str>)
    ensures
        r@.len() == split_ws(s@).len(),
        forall|k: int| 0 <= k < r@.len() ==> #[trigger] r@[k]@ == split_ws(s@)[k],
{
    let len = s.unicode_len();
    let mut toks: Vec<&'a str> = Vec::new();
    let mut i: usize = 0;
    while i < len
        invariant
            0 <= i <= len,
            len == s@.len(),
            split_ws(s@) == toks@.map_values(|t: &str| t@) + split_ws_from(s@, i as int),
        decreases len - i,
    {
        let c = s.get_char(i);
        if is_space(c) {
            i += 1;
        } else {
            let mut j: usize = i + 1;
            while j < len && !is_space(s.get_char(j))
                invariant
                    i < j <= len,
                    len == s@.len(),
                    forall|m: int| i <= m < j ==> !is_space_char(#[trigger] s@[m]),
                decreases len - j,
            {
                j += 1;
            }
            proof {
                lemma_token_end_eq(s@, i as int, j as int);
            }
            let tok = s.substring_char(i, j);
            let ghost toks_before = toks@;
            toks.push(tok);
            proof {
                assert(toks@.map_values(|t: &str| t@) =~= toks_before.map_values(
                    |t: &str| t@,
                ).push(tok@));
            }
            i = j;
        }
    }
    proof {
        assert(split_ws(s@) =~= toks@.map_values(|t: &str| t@));
        assert forall|k: int| 0 <= k < toks@.len() implies #[trigger] toks@[k]@ == split_ws(s@)[k]
        by {
            assert(split_ws(s@)[k] == toks@.map_values(|t: &str| t@)[k]);
        }
    }
    toks
}

/// The character for a single decimal digit.
pub open spec fn digit_char(d: nat) -> char {
    if d == 0 {
        '0'
    } else if d == 1 {
        '1'
    } else if d == 2 {
        '2'
    } else if d == 3 {
        '3'
    } else if d == 4 {
        '4'
    } else if d == 5 {
        '5'
    } else if d == 6 {
        '6'
    } else if d == 7 {
        '7'
    } else if d == 8 {
        '8'
    } else {
        '9'
    }
}

/// The decimal numeral of an unsigned number, most significant digit first,
/// without leading zeros.
pub open spec fn dec_u(n: nat) -> Seq<char>
    decreases n,
{
    if n < 10 {
        seq![digit_char(n)]
    } else {
        dec_u(n / 10) + seq![digit_char(n % 10)]
    }
}

/// The decimal numeral of a signed number.
pub open spec fn dec_i(v: int) -> Seq<char> {
    if v < 0 {
        seq!['-'] + dec_u((-v) as nat)
    } else {
        dec_u(v as nat)
    }
}

fn digit_str(d: u64) -> (r: &'static str)
    requires
        d < 10,
    ensures
        r@ == seq![digit_char(d as nat)],
{
    proof {
        reveal_strlit("0");
        reveal_strlit("1");
        reveal_strlit("2");
        reveal_strlit("3");
        reveal_strlit("4");
        reveal_strlit("5");
        reveal_strlit("6");
        reveal_strlit("7");
        reveal_strlit("8");
        reveal_strlit("9");
    }
    let r = match d {
        0 => "0",
        1 => "1",
        2 => "2",
        3 => "3",
        4 => "4",
        5 => "5",
        6 => "6",
        7 => "7",
        8 => "8",
        _ => "9",
    };
    proof {
        assert(r@ =~= seq![digit_char(d as nat)]);
    }
    r
}

/// Appends the decimal numeral of `n` to `s`.
pub fn push_u64(s: &mut String, n: u64)
    ensures
        final (s)@ == old(s)@ + dec_u(n as nat),
    decreases n,
{
    if n < 10 {
        s.append(digit_str(n));
    } else {
        push_u64(s, n / 10);
        s.append(digit_str(n % 10));
        proof {
            assert(old(s)@ + dec_u((n / 10) as nat) + seq![digit_char((n % 10) as nat)] =~= old(
                s,
            )@ + dec_u(n as nat));
        }
    }
}

/// Appends the decimal numeral of `v` to `s`.
pub fn push_i64(s: &mut String, v: i64)
    ensures
        final (s)@ == old(s)@ + dec_i(v as int),
{
    if v < 0 {
        let mag: u64 = (-(v as i128)) as u64;
        proof {
            reveal_strlit("-");
        }
        s.append("-");
        push_u64(s, mag);
        proof {
            assert(old(s)@ + "-"@ + dec_u(mag as nat) =~= old(s)@ + dec_i(v as int));
        }
    } else {
        push_u64(s, v as u64);
    }
}

} // verus!
