//! Character classes and the number grammars of the ledger text.
use vstd::prelude::*;

verus! {

/// Whether `c` is white space in Unicode's sense (the White_Space property).
pub open spec fn is_space(c: char) -> bool {
    ('\u{9}' <= c && c <= '\u{d}') || c == ' ' || c == '\u{85}' || c == '\u{a0}' || c
        == '\u{1680}' || ('\u{2000}' <= c && c <= '\u{200a}') || c == '\u{2028}' || c
        == '\u{2029}' || c == '\u{202f}' || c == '\u{205f}' || c == '\u{3000}'
}

/// Whether `c` is white space (see `is_space`).
pub fn space(c: char) -> (r: bool)
    ensures
        r == is_space(c),
{
    ('\u{9}' <= c && c <= '\u{d}') || c == ' ' || c == '\u{85}' || c == '\u{a0}' || c
        == '\u{1680}' || ('\u{2000}' <= c && c <= '\u{200a}') || c == '\u{2028}' || c
        == '\u{2029}' || c == '\u{202f}' || c == '\u{205f}' || c == '\u{3000}'
}

/// Whether `c` is an ASCII decimal digit.
pub open spec fn is_digit(c: char) -> bool {
    '0' <= c && c <= '9'
}

/// Whether every character of `s` is a digit.
pub open spec fn all_digits(s: Seq<char>) -> bool {
    forall|i: int| 0 <= i < s.len() ==> is_digit(#[trigger] s[i])
}

/// The decimal value of a string of digits.
pub open spec fn digits_value(s: Seq<char>) -> int
    decreases s.len(),
{
    if s.len() == 0 {
        0
    } else {
        digits_value(s.drop_last()) * 10 + (s.last() as int - '0' as int)
    }
}

/// Ten to the power `n`.
pub open spec fn pow10(n: nat) -> nat
    decreases n,
{
    if n == 0 {
        1
    } else {
        10 * pow10((n - 1) as nat)
    }
}

/// Powers of ten grow with the exponent.
pub proof fn lemma_pow10_monotone(a: nat, b: nat)
    requires
        a <= b,
    ensures
        1 <= pow10(a) <= pow10(b),
    decreases b,
{
    if b > a {
        lemma_pow10_monotone(a, (b - 1) as nat);
    } else if a > 0 {
        lemma_pow10_monotone((a - 1) as nat, (a - 1) as nat);
    }
}

/// The powers of ten that the amount grammar uses.
pub proof fn lemma_pow10_values()
    ensures
        pow10(0) == 1,
        pow10(1) == 10,
        pow10(2) == 100,
        pow10(3) == 1000,
        pow10(4) == 10000,
        pow10(5) == 100000,
        pow10(6) == 1000000,
        pow10(12) == 1000000000000,
        pow10(18) == 1000000000000000000,
{
    reveal_with_fuel(pow10, 19);
}

/// Reads the digits `cs[a..b]` (at most eighteen of them) as a decimal number;
/// `None` when one of them is not a digit.
pub fn read_digits(cs: &Vec<char>, a: usize, b: usize) -> (r: Option<i64>)
    requires
        a <= b <= cs@.len(),
        b - a <= 18,
    ensures
        r is Some <==> all_digits(cs@.subrange(a as int, b as int)),
        r matches Some(v) ==> v == digits_value(cs@.subrange(a as int, b as int)) && 0 <= v
            < pow10((b - a) as nat),
{
    let mut v: i64 = 0;
    let mut i: usize = a;
    proof {
        lemma_pow10_values();
    }
    while i < b
        invariant
            a <= i <= b <= cs@.len(),
            b - a <= 18,
            all_digits(cs@.subrange(a as int, i as int)),
            0 <= v < pow10((i - a) as nat),
            v == digits_value(cs@.subrange(a as int, i as int)),
            pow10(18) == 1000000000000000000,
        decreases b - i,
    {
        let c = cs[i];
        if !('0' <= c && c <= '9') {
            assert(!all_digits(cs@.subrange(a as int, b as int))) by {
                assert(cs@.subrange(a as int, b as int)[i - a] == c);
            }
            return None;
        }
        let ghost prev = cs@.subrange(a as int, i as int);
        let ghost next = cs@.subrange(a as int, i + 1);
        assert(next.drop_last() =~= prev);
        proof {
            lemma_pow10_monotone((i + 1 - a) as nat, 18);
            assert(pow10((i + 1 - a) as nat) == 10 * pow10((i - a) as nat));
        }
        v = v * 10 + (c as i64 - '0' as i64);
        i = i + 1;
        assert(all_digits(next)) by {
            assert forall|j: int| 0 <= j < next.len() implies is_digit(#[trigger] next[j]) by {
                if j < prev.len() {
                    assert(next[j] == prev[j]);
                }
            }
        }
    }
    Some(v)
}

/// Index of the first `'.'` of `s` at or after `i`, or the length of `s`.
pub open spec fn dot_index(s: Seq<char>, i: int) -> int
    decreases s.len() - i,
{
    if i >= s.len() {
        s.len() as int
    } else if s[i] == '.' {
        i
    } else {
        dot_index(s, i + 1)
    }
}

/// Length of the sign that opens `s`: 1 for a leading `+` or `-`, else 0.
pub open spec fn sign_len(s: Seq<char>) -> int {
    if s.len() > 0 && (s[0] == '+' || s[0] == '-') {
        1
    } else {
        0
    }
}

/// The amount written by `s`, in millionths.
///
/// An amount is an optional sign, at most twelve digits, and optionally a point
/// followed by at most six digits, with at least one digit in all
/// (`12`, `-3.5`, `+.25`, `7.`). Any other text is no amount.
pub open spec fn amount_value(s: Seq<char>) -> Option<int> {
    let k = sign_len(s);
    let body = s.subrange(k, s.len() as int);
    let p = dot_index(body, 0);
    let whole = body.subrange(0, p);
    let frac = if p < body.len() {
        body.subrange(p + 1, body.len() as int)
    } else {
        Seq::empty()
    };
    if all_digits(whole) && all_digits(frac) && whole.len() <= 12 && frac.len() <= 6
        && whole.len() + frac.len() >= 1 {
        let m = digits_value(whole) * 1000000 + digits_value(frac) * pow10(
            (6 - frac.len()) as nat,
        );
        Some(
            if k == 1 && s[0] == '-' {
                -m
            } else {
                m
            },
        )
    } else {
        None
    }
}

/// Largest magnitude of an amount, in millionths.
pub open spec fn amount_bound() -> int {
    1000000000000000000
}

fn small_pow10(n: usize) -> (r: i64)
    requires
        n <= 6,
    ensures
        r == pow10(n as nat),
{
    proof {
        lemma_pow10_values();
    }
    if n == 0 {
        1
    } else if n == 1 {
        10
    } else if n == 2 {
        100
    } else if n == 3 {
        1000
    } else if n == 4 {
        10000
    } else if n == 5 {
        100000
    } else {
        1000000
    }
}

proof fn lemma_amount_parts_bound(w: int, f: int, wl: nat, fl: nat)
    requires
        wl <= 12,
        fl <= 6,
        0 <= w < pow10(wl),
        0 <= f < pow10(fl),
    ensures
        0 <= w * 1000000 + f * pow10((6 - fl) as nat) < amount_bound(),
{
    lemma_pow10_values();
    lemma_pow10_monotone(wl, 12);
    let scale = pow10((6 - fl) as nat);
    assert(pow10(fl) * scale == 1000000) by {
        if fl == 0 {
            assert(scale == pow10(6));
        } else if fl == 1 {
            assert(scale == pow10(5));
        } else if fl == 2 {
            assert(scale == pow10(4));
        } else if fl == 3 {
            assert(scale == pow10(3));
        } else if fl == 4 {
            assert(scale == pow10(2));
        } else if fl == 5 {
            assert(scale == pow10(1));
        } else {
            assert(scale == pow10(0));
        }
    }
    assert(0 <= f * scale < 1000000) by (nonlinear_arith)
        requires
            0 <= f < pow10(fl),
            pow10(fl) * scale == 1000000,
            scale > 0,
    ;
    vstd::arithmetic::mul::lemma_mul_inequality(w, 999999999999, 1000000);
    vstd::arithmetic::mul::lemma_mul_nonnegative(w, 1000000);
}

/// The amount written by `cs[a..b]`, in millionths (see `amount_value`).
pub fn read_amount(cs: &Vec<char>, a: usize, b: usize) -> (r: Option<i64>)
    requires
        a <= b <= cs@.len(),
    ensures
        r is None <==> amount_value(cs@.subrange(a as int, b as int)) is None,
        r matches Some(v) ==> amount_value(cs@.subrange(a as int, b as int)) == Some(v as int)
            && -amount_bound() < v < amount_bound(),
{
    let ghost s = cs@.subrange(a as int, b as int);
    let k: usize = if a < b && (cs[a] == '+' || cs[a] == '-') {
        1
    } else {
        0
    };
    assert(k == sign_len(s));
    let s0 = a + k;
    let ghost body = s.subrange(k as int, s.len() as int);
    assert(body =~= cs@.subrange(s0 as int, b as int));
    let mut p: usize = s0;
    while p < b && cs[p] != '.'
        invariant
            s0 <= p <= b <= cs@.len(),
            body == cs@.subrange(s0 as int, b as int),
            dot_index(body, 0) == dot_index(body, p - s0),
        decreases b - p,
    {
        assert(body[p - s0] == cs@[p as int]);
        p = p + 1;
    }
    if p < b {
        assert(body[p - s0] == cs@[p as int]);
    }
    assert(dot_index(body, 0) == p - s0);
    let ghost whole = body.subrange(0, p - s0);
    assert(whole =~= cs@.subrange(s0 as int, p as int));
    let q: usize = if p < b {
        p + 1
    } else {
        b
    };
    let ghost frac: Seq<char> = if p < b {
        body.subrange(p - s0 + 1, body.len() as int)
    } else {
        Seq::empty()
    };
    assert(frac =~= cs@.subrange(q as int, b as int));
    if p - s0 > 12 || b - q > 6 || (p - s0) + (b - q) == 0 {
        return None;
    }
    let w = match read_digits(cs, s0, p) {
        Some(w) => w,
        None => {
            return None;
        },
    };
    let f = match read_digits(cs, q, b) {
        Some(f) => f,
        None => {
            return None;
        },
    };
    let scale = small_pow10(6 - (b - q));
    proof {
        lemma_amount_parts_bound(w as int, f as int, (p - s0) as nat, (b - q) as nat);
    }
    let m = w * 1000000 + f * scale;
    if k == 1 && cs[a] == '-' {
        Some(-m)
    } else {
        Some(m)
    }
}

/// First index in `[i, hi)` of a character that is not white space, else `hi`.
pub open spec fn skip_spaces(t: Seq<char>, i: int, hi: int) -> int
    decreases hi - i,
{
    if i >= hi {
        hi
    } else if is_space(t[i]) {
        skip_spaces(t, i + 1, hi)
    } else {
        i
    }
}

/// First index in `[i, hi)` of a white-space character, else `hi`.
pub open spec fn token_end(t: Seq<char>, i: int, hi: int) -> int
    decreases hi - i,
{
    if i >= hi {
        hi
    } else if is_space(t[i]) {
        i
    } else {
        token_end(t, i + 1, hi)
    }
}

/// End of `[lo, hi)` once trailing white space is dropped.
pub open spec fn trim_end(t: Seq<char>, lo: int, hi: int) -> int
    decreases hi - lo,
{
    if hi <= lo {
        lo
    } else if is_space(t[hi - 1]) {
        trim_end(t, lo, hi - 1)
    } else {
        hi
    }
}

/// Index of the first line feed at or after `i`, else the length of `t`.
pub open spec fn line_end(t: Seq<char>, i: int) -> int
    decreases t.len() - i,
{
    if i >= t.len() {
        t.len() as int
    } else if t[i] == '\n' {
        i
    } else {
        line_end(t, i + 1)
    }
}

/// A line ends at or after its start, and at a line feed unless at the end.
pub proof fn lemma_line_end_bounds(t: Seq<char>, i: int)
    ensures
        i <= t.len() ==> i <= line_end(t, i) <= t.len(),
        line_end(t, i) < t.len() ==> t[line_end(t, i)] == '\n',
    decreases t.len() - i,
{
    if i < t.len() && t[i] != '\n' {
        lemma_line_end_bounds(t, i + 1);
    }
}

/// First index in `[i, hi)` of a character that is not white space, else `hi`.
pub fn find_non_space(cs: &Vec<char>, i: usize, hi: usize) -> (r: usize)
    requires
        i <= hi <= cs@.len(),
    ensures
        r == skip_spaces(cs@, i as int, hi as int),
        i <= r <= hi,
{
    let mut j = i;
    while j < hi && space(cs[j])
        invariant
            i <= j <= hi <= cs@.len(),
            skip_spaces(cs@, i as int, hi as int) == skip_spaces(cs@, j as int, hi as int),
        decreases hi - j,
    {
        j = j + 1;
    }
    j
}

/// First index in `[i, hi)` of a white-space character, else `hi`.
pub fn find_space(cs: &Vec<char>, i: usize, hi: usize) -> (r: usize)
    requires
        i <= hi <= cs@.len(),
    ensures
        r == token_end(cs@, i as int, hi as int),
        i <= r <= hi,
{
    let mut j = i;
    while j < hi && !space(cs[j])
        invariant
            i <= j <= hi <= cs@.len(),
            token_end(cs@, i as int, hi as int) == token_end(cs@, j as int, hi as int),
        decreases hi - j,
    {
        j = j + 1;
    }
    j
}

/// End of `cs[lo..hi]` once trailing white space is dropped.
pub fn trimmed_end(cs: &Vec<char>, lo: usize, hi: usize) -> (r: usize)
    requires
        lo <= hi <= cs@.len(),
    ensures
        r == trim_end(cs@, lo as int, hi as int),
        lo <= r <= hi,
{
    let mut j = hi;
    while j > lo && space(cs[j - 1])
        invariant
            lo <= j <= hi <= cs@.len(),
            trim_end(cs@, lo as int, hi as int) == trim_end(cs@, lo as int, j as int),
        decreases j,
    {
        j = j - 1;
    }
    j
}

/// Index of the first line feed at or after `i`, else the length of `cs`.
pub fn find_line_end(cs: &Vec<char>, i: usize) -> (r: usize)
    requires
        i <= cs@.len(),
    ensures
        r == line_end(cs@, i as int),
        i <= r <= cs@.len(),
{
    let mut j = i;
    while j < cs.len() && cs[j] != '\n'
        invariant
            i <= j <= cs@.len(),
            line_end(cs@, i as int) == line_end(cs@, j as int),
        decreases cs@.len() - j,
    {
        j = j + 1;
    }
    j
}

/// The integer written by `s`: an optional sign and at least one digit, within
/// the range of `i64`.
pub open spec fn integer_value(s: Seq<char>) -> Option<int> {
    let k = sign_len(s);
    let body = s.subrange(k, s.len() as int);
    let v = if k == 1 && s[0] == '-' {
        -digits_value(body)
    } else {
        digits_value(body)
    };
    if body.len() >= 1 && all_digits(body) && i64::MIN <= v <= i64::MAX {
        Some(v)
    } else {
        None
    }
}

proof fn lemma_digits_value_prefix(s: Seq<char>, j: int)
    requires
        all_digits(s),
        0 <= j <= s.len(),
    ensures
        0 <= digits_value(s.subrange(0, j)) <= digits_value(s),
    decreases s.len(),
{
    if s.len() > 0 {
        let t = s.drop_last();
        assert(all_digits(t)) by {
            assert forall|i: int| 0 <= i < t.len() implies is_digit(#[trigger] t[i]) by {
                assert(t[i] == s[i]);
            }
        }
        assert(is_digit(s[s.len() - 1]));
        if j == s.len() {
            assert(s.subrange(0, j) =~= s);
            lemma_digits_value_prefix(t, t.len() as int);
            assert(t.subrange(0, t.len() as int) =~= t);
        } else {
            lemma_digits_value_prefix(t, j);
            assert(t.subrange(0, j) =~= s.subrange(0, j));
            lemma_digits_value_prefix(t, t.len() as int);
            assert(t.subrange(0, t.len() as int) =~= t);
        }
    }
}

/// The integer written by `cs[a..b]` (see `integer_value`).
pub fn read_integer(cs: &Vec<char>, a: usize, b: usize) -> (r: Option<i64>)
    requires
        a <= b <= cs@.len(),
    ensures
        r is None <==> integer_value(cs@.subrange(a as int, b as int)) is None,
        r matches Some(v) ==> integer_value(cs@.subrange(a as int, b as int)) == Some(v as int),
{
    let ghost s = cs@.subrange(a as int, b as int);
    let k: usize = if a < b && (cs[a] == '+' || cs[a] == '-') {
        1
    } else {
        0
    };
    assert(k == sign_len(s));
    let s0 = a + k;
    let ghost body = s.subrange(k as int, s.len() as int);
    assert(body =~= cs@.subrange(s0 as int, b as int));
    if s0 == b {
        return None;
    }
    let negative = k == 1 && cs[a] == '-';
    let limit: u128 = 0x8000_0000_0000_0000;
    let mut v: u128 = 0;
    let mut i: usize = s0;
    while i < b
        invariant
            s0 <= i <= b <= cs@.len(),
            s == cs@.subrange(a as int, b as int),
            k == sign_len(s),
            s0 == a + k,
            body == s.subrange(k as int, s.len() as int),
            body == cs@.subrange(s0 as int, b as int),
            all_digits(cs@.subrange(s0 as int, i as int)),
            v == digits_value(cs@.subrange(s0 as int, i as int)),
            v <= limit,
            limit == 0x8000_0000_0000_0000u128,
        decreases b - i,
    {
        let c = cs[i];
        if !('0' <= c && c <= '9') {
            assert(!all_digits(body)) by {
                assert(body[i - s0] == c);
            }
            return None;
        }
        let ghost prev = cs@.subrange(s0 as int, i as int);
        let ghost next = cs@.subrange(s0 as int, i + 1);
        assert(next.drop_last() =~= prev);
        assert(all_digits(next)) by {
            assert forall|j: int| 0 <= j < next.len() implies is_digit(#[trigger] next[j]) by {
                if j < prev.len() {
                    assert(next[j] == prev[j]);
                }
            }
        }
        v = v * 10 + (c as u128 - '0' as u128);
        i = i + 1;
        if v > limit {
            proof {
                if all_digits(body) {
                    lemma_digits_value_prefix(body, i - s0);
                    assert(body.subrange(0, i - s0) =~= next);
                }
            }
            return None;
        }
    }
    assert(cs@.subrange(s0 as int, i as int) =~= body);
    if negative {
        Some(-(v as i128) as i64)
    } else if v <= 0x7fff_ffff_ffff_ffff {
        Some(v as i64)
    } else {
        None
    }
}

} // verus!
