//! The sensor reader: turns the raw text of the sensor source into an exact
//! decimal reading.
//!
//! The raw content is a base-10 number in milli-units, optionally surrounded
//! by whitespace: an optional sign, digits, and at most one decimal point.
//! Parsing keeps the number exactly and applies the fixed milli-to-base unit
//! conversion by raising the decimal scale by three.

use vstd::arithmetic::div_mod::lemma_fundamental_div_mod;
use vstd::prelude::*;

use crate::value::DecValue;

verus! {

/// One of the whitespace characters stripped from either end of the raw
/// sensor text.
pub open spec fn is_space(c: char) -> bool {
    c == ' ' || c == '\t' || c == '\n' || c == '\r'
}

/// A decimal digit.
pub open spec fn is_digit(c: char) -> bool {
    48 <= c as u32 <= 57
}

/// The numeric value of a decimal digit character.
pub open spec fn digit_val(c: char) -> nat {
    (c as u32 - 48) as nat
}

/// `s` without its leading whitespace.
pub open spec fn trim_front(s: Seq<char>) -> Seq<char>
    decreases s.len(),
{
    if s.len() > 0 && is_space(s.first()) {
        trim_front(s.drop_first())
    } else {
        s
    }
}

/// `s` without its trailing whitespace.
pub open spec fn trim_back(s: Seq<char>) -> Seq<char>
    decreases s.len(),
{
    if s.len() > 0 && is_space(s.last()) {
        trim_back(s.drop_last())
    } else {
        s
    }
}

/// `s` without surrounding whitespace.
pub open spec fn trimmed(s: Seq<char>) -> Seq<char> {
    trim_back(trim_front(s))
}

/// Whether the trimmed text `t` starts with an explicit sign.
pub open spec fn has_sign(t: Seq<char>) -> bool {
    t.len() > 0 && (t.first() == '+' || t.first() == '-')
}

/// Whether the trimmed text `t` denotes a negative number.
pub open spec fn is_negative(t: Seq<char>) -> bool {
    t.len() > 0 && t.first() == '-'
}

/// The trimmed text without its sign: the digits-and-dot body.
pub open spec fn number_body(t: Seq<char>) -> Seq<char> {
    if has_sign(t) {
        t.drop_first()
    } else {
        t
    }
}

/// How many leading characters of `b` are digits.
pub open spec fn digit_prefix_len(b: Seq<char>) -> nat
    decreases b.len(),
{
    if b.len() > 0 && is_digit(b.first()) {
        1 + digit_prefix_len(b.drop_first())
    } else {
        0
    }
}

/// The number denoted by a sequence of digit characters, read in base 10.
pub open spec fn digits_val(ds: Seq<char>) -> nat
    decreases ds.len(),
{
    if ds.len() == 0 {
        0
    } else {
        digits_val(ds.drop_last()) * 10 + digit_val(ds.last())
    }
}

/// Whether the sign-free body `b` is a well-formed base-10 number: digits,
/// with at most one decimal point and at least one digit somewhere.
pub open spec fn body_wf(b: Seq<char>) -> bool {
    let k = digit_prefix_len(b) as int;
    if k == b.len() {
        k > 0
    } else {
        &&& b[k] == '.'
        &&& digit_prefix_len(b.subrange(k + 1, b.len() as int)) == b.len() - k - 1
        &&& b.len() > 1
    }
}

/// The digit characters of the body with the decimal point removed.
pub open spec fn body_digits(b: Seq<char>) -> Seq<char> {
    let k = digit_prefix_len(b) as int;
    if k == b.len() {
        b
    } else {
        b.subrange(0, k) + b.subrange(k + 1, b.len() as int)
    }
}

/// How many digits of the body stand behind the decimal point.
pub open spec fn body_frac_len(b: Seq<char>) -> nat {
    let k = digit_prefix_len(b) as int;
    if k == b.len() {
        0
    } else {
        (b.len() - k - 1) as nat
    }
}

/// Whether the raw sensor text parses: its trimmed form is a well-formed
/// number whose digits fit a 64-bit mantissa and whose scale fits the
/// machine word.
pub open spec fn reading_ok(s: Seq<char>) -> bool {
    let b = number_body(trimmed(s));
    &&& body_wf(b)
    &&& digits_val(body_digits(b)) <= u64::MAX
    &&& body_frac_len(b) + 3 <= usize::MAX
}

/// The reading that well-formed raw text denotes: the parsed decimal with
/// its scale raised by three, converting milli-units to base units, and a
/// zero never negative.
pub open spec fn spec_reading(s: Seq<char>) -> DecValue {
    let t = trimmed(s);
    let b = number_body(t);
    DecValue {
        neg: is_negative(t) && digits_val(body_digits(b)) != 0,
        mantissa: digits_val(body_digits(b)) as u64,
        scale: (body_frac_len(b) + 3) as usize,
    }
}

/// Why a sensor read failed.
#[derive(Clone, Copy, PartialEq, Eq, Structural, Debug)]
pub enum ReadError {
    /// The sensor source could not be read at all.
    Io,
    /// The source was read but its content is not a valid number.
    Parse,
}

impl ReadError {
    /// A short description of the failure kind, for log lines.
    pub fn describe(&self) -> (r: &'static str)
        ensures
            *self == ReadError::Io ==> r@ == "I/O error"@,
            *self == ReadError::Parse ==> r@ == "parse error"@,
    {
        match self {
            ReadError::Io => "I/O error",
            ReadError::Parse => "parse error",
        }
    }
}

/// Growing a digit string can only grow its value.
proof fn lemma_digits_val_extend(a: Seq<char>, b: Seq<char>)
    ensures
        digits_val(a + b) >= digits_val(a),
    decreases b.len(),
{
    if b.len() == 0 {
        assert(a + b =~= a);
    } else {
        assert((a + b).drop_last() =~= a + b.drop_last());
        lemma_digits_val_extend(a, b.drop_last());
        assert(digits_val(a + b) == digits_val(a + b.drop_last()) * 10 + digit_val((a
            + b).last()));
        assert(digits_val(a + b.drop_last()) * 10 >= digits_val(a + b.drop_last()));
    }
}

/// A digit prefix is at least as long as any run of digits from the start.
proof fn lemma_digit_prefix_at_least(x: Seq<char>, j: int)
    requires
        0 <= j <= x.len(),
        forall|i: int| 0 <= i < j ==> is_digit(#[trigger] x[i]),
    ensures
        digit_prefix_len(x) >= j,
    decreases x.len(),
{
    if j > 0 {
        assert(is_digit(x.first()));
        let y = x.drop_first();
        assert forall|i: int| 0 <= i < j - 1 implies is_digit(#[trigger] y[i]) by {
            assert(y[i] == x[i + 1]);
        }
        lemma_digit_prefix_at_least(y, j - 1);
    }
}

/// Every character inside the digit prefix is a digit.
proof fn lemma_digit_prefix_digits(x: Seq<char>)
    ensures
        digit_prefix_len(x) <= x.len(),
        forall|i: int| 0 <= i < digit_prefix_len(x) ==> is_digit(#[trigger] x[i]),
    decreases x.len(),
{
    if x.len() > 0 && is_digit(x.first()) {
        let y = x.drop_first();
        lemma_digit_prefix_digits(y);
        assert forall|i: int| 0 <= i < digit_prefix_len(x) implies is_digit(#[trigger] x[i]) by {
            if i >= 1 {
                assert(y[i - 1] == x[i]);
                assert(is_digit(y[i - 1]));
            }
        }
    }
}

/// The digit prefix ends exactly at the first non-digit.
proof fn lemma_digit_prefix_len_is(x: Seq<char>, j: int)
    requires
        0 <= j <= x.len(),
        forall|i: int| 0 <= i < j ==> is_digit(#[trigger] x[i]),
        j == x.len() || !is_digit(x[j]),
    ensures
        digit_prefix_len(x) == j,
    decreases x.len(),
{
    if j == 0 {
        assert(x.len() == 0 || !is_digit(x.first()));
    } else {
        assert(is_digit(x.first()));
        let y = x.drop_first();
        assert forall|i: int| 0 <= i < j - 1 implies is_digit(#[trigger] y[i]) by {
            assert(y[i] == x[i + 1]);
        }
        if j - 1 < y.len() {
            assert(y[j - 1] == x[j]);
        }
        lemma_digit_prefix_len_is(y, j - 1);
    }
}

/// If the digits scanned so far already outgrow `u64::MAX`, so does the
/// whole body's digit string.
proof fn lemma_parse_overflow(t: Seq<char>, b: Seq<char>, start: int, j1: int, acc: u64, d: u64)
    requires
        0 <= start < j1 <= t.len(),
        b == t.subrange(start, t.len() as int),
        forall|j: int| start <= j < j1 ==> is_digit(#[trigger] t[j]),
        acc == digits_val(t.subrange(start, j1 - 1)),
        d == digit_val(t[j1 - 1]),
        d <= 9,
        acc > (u64::MAX - d) / 10,
    ensures
        digits_val(body_digits(b)) > u64::MAX,
{
    let p = t.subrange(start, j1);
    assert(p.drop_last() =~= t.subrange(start, j1 - 1));
    assert(p.last() == t[j1 - 1]);
    assert(digits_val(p) == acc * 10 + d);
    lemma_fundamental_div_mod((u64::MAX - d) as int, 10);
    assert(acc * 10 + d > u64::MAX);
    let j = j1 - start;
    assert forall|i: int| 0 <= i < j implies is_digit(#[trigger] b[i]) by {
        assert(b[i] == t[start + i]);
    }
    lemma_digit_prefix_at_least(b, j);
    lemma_digit_prefix_digits(b);
    let k = digit_prefix_len(b) as int;
    assert(b.subrange(0, j) =~= p);
    if k == b.len() {
        assert(body_digits(b) =~= p + b.subrange(j, b.len() as int));
        lemma_digits_val_extend(p, b.subrange(j, b.len() as int));
    } else {
        let rest = b.subrange(j, k) + b.subrange(k + 1, b.len() as int);
        assert(b.subrange(0, k) =~= p + b.subrange(j, k));
        assert(body_digits(b) == b.subrange(0, k) + b.subrange(k + 1, b.len() as int));
        assert((p + b.subrange(j, k)) + b.subrange(k + 1, b.len() as int) =~= p + rest);
        lemma_digits_val_extend(p, rest);
    }
}

/// The same overflow argument, with the scan already past the decimal point.
proof fn lemma_parse_overflow_frac(
    t: Seq<char>,
    b: Seq<char>,
    start: int,
    di: int,
    j2: int,
    acc: u64,
    d: u64,
)
    requires
        0 <= start <= di < j2 < t.len(),
        b == t.subrange(start, t.len() as int),
        forall|j: int| start <= j < di ==> is_digit(#[trigger] t[j]),
        t[di] == '.',
        forall|j: int| di + 1 <= j < j2 ==> is_digit(#[trigger] t[j]),
        is_digit(t[j2]),
        acc == digits_val(t.subrange(start, di) + t.subrange(di + 1, j2)),
        d == digit_val(t[j2]),
        d <= 9,
        acc > (u64::MAX - d) / 10,
    ensures
        digits_val(body_digits(b)) > u64::MAX,
{
    let k = di - start;
    assert forall|i: int| 0 <= i < k implies is_digit(#[trigger] b[i]) by {
        assert(b[i] == t[start + i]);
    }
    assert(b[k] == t[di]);
    assert(!is_digit('.'));
    lemma_digit_prefix_len_is(b, k);
    let p = t.subrange(start, di) + t.subrange(di + 1, j2 + 1);
    assert(p.drop_last() =~= t.subrange(start, di) + t.subrange(di + 1, j2));
    assert(p.last() == t[j2]);
    assert(digits_val(p) == acc * 10 + d);
    lemma_fundamental_div_mod((u64::MAX - d) as int, 10);
    assert(acc * 10 + d > u64::MAX);
    let rest = b.subrange(j2 + 1 - start, b.len() as int);
    assert(b.subrange(0, k) =~= t.subrange(start, di));
    assert(b.subrange(k + 1, b.len() as int) =~= t.subrange(di + 1, t.len() as int));
    assert(body_digits(b) =~= p + rest);
    lemma_digits_val_extend(p, rest);
}

/// A non-digit behind the decimal point makes the body ill-formed.
proof fn lemma_not_wf_frac(t: Seq<char>, b: Seq<char>, start: int, di: int, j2: int)
    requires
        0 <= start <= di < j2 < t.len(),
        b == t.subrange(start, t.len() as int),
        forall|j: int| start <= j < di ==> is_digit(#[trigger] t[j]),
        t[di] == '.',
        !is_digit(t[j2]),
    ensures
        !body_wf(b),
{
    let k = di - start;
    assert forall|i: int| 0 <= i < k implies is_digit(#[trigger] b[i]) by {
        assert(b[i] == t[start + i]);
    }
    assert(b[k] == t[di]);
    assert(!is_digit('.'));
    lemma_digit_prefix_len_is(b, k);
    let frac = b.subrange(k + 1, b.len() as int);
    lemma_digit_prefix_digits(frac);
    if body_wf(b) {
        assert(digit_prefix_len(frac) == frac.len());
        assert(frac[j2 - di - 1] == t[j2]);
        assert(is_digit(frac[j2 - di - 1]));
        assert(false);
    }
}

/// The fraction's length in characters is the body's fractional digit count.
proof fn lemma_parse_scale_overflow(t: Seq<char>, b: Seq<char>, start: int, di: int, fl: int)
    requires
        0 <= start <= di < t.len(),
        b == t.subrange(start, t.len() as int),
        forall|j: int| start <= j < di ==> is_digit(#[trigger] t[j]),
        t[di] == '.',
        fl == t.len() - di - 1,
        fl > usize::MAX - 3,
    ensures
        body_frac_len(b) + 3 > usize::MAX,
{
    let k = di - start;
    assert forall|i: int| 0 <= i < k implies is_digit(#[trigger] b[i]) by {
        assert(b[i] == t[start + i]);
    }
    assert(b[k] == t[di]);
    assert(!is_digit('.'));
    lemma_digit_prefix_len_is(b, k);
    assert(body_frac_len(b) == fl);
}

/// A fully scanned dotted body is well formed and denotes the accumulated
/// digits at the fraction's scale.
proof fn lemma_parse_frac_ok(t: Seq<char>, b: Seq<char>, start: int, di: int, acc: u64)
    requires
        0 <= start <= di < t.len(),
        b == t.subrange(start, t.len() as int),
        forall|j: int| start <= j < di ==> is_digit(#[trigger] t[j]),
        t[di] == '.',
        forall|j: int| di + 1 <= j < t.len() ==> is_digit(#[trigger] t[j]),
        acc == digits_val(t.subrange(start, di) + t.subrange(di + 1, t.len() as int)),
        t.len() - start > 1,
    ensures
        body_wf(b),
        digits_val(body_digits(b)) == acc,
        body_frac_len(b) == t.len() - di - 1,
{
    let k = di - start;
    assert forall|i: int| 0 <= i < k implies is_digit(#[trigger] b[i]) by {
        assert(b[i] == t[start + i]);
    }
    assert(b[k] == t[di]);
    assert(!is_digit('.'));
    lemma_digit_prefix_len_is(b, k);
    let frac = b.subrange(k + 1, b.len() as int);
    assert(frac =~= t.subrange(di + 1, t.len() as int));
    assert forall|i: int| 0 <= i < frac.len() implies is_digit(#[trigger] frac[i]) by {
        assert(frac[i] == t[di + 1 + i]);
    }
    lemma_digit_prefix_len_is(frac, frac.len() as int);
    assert(body_wf(b));
    assert(b.subrange(0, k) =~= t.subrange(start, di));
    assert(body_digits(b) == b.subrange(0, k) + frac);
}

fn is_space_char(c: char) -> (r: bool)
    ensures
        r == is_space(c),
{
    c == ' ' || c == '\t' || c == '\n' || c == '\r'
}

fn is_digit_char(c: char) -> (r: bool)
    ensures
        r == is_digit(c),
{
    let u = c as u32;
    48 <= u && u <= 57
}

/// Parses raw sensor text into a reading. Succeeds exactly on well-formed
/// numeric text (see [`reading_ok`]) and returns the denoted value with its
/// milli-to-base conversion applied; anything else is a parse error.
#[verifier::rlimit(100)]
pub fn parse_reading(s: &str) -> (r: Result<DecValue, ReadError>)
    ensures
        reading_ok(s@) ==> r == Ok::<DecValue, ReadError>(spec_reading(s@)),
        !reading_ok(s@) ==> r == Err::<DecValue, ReadError>(ReadError::Parse),
{
    let n = s.unicode_len();
    proof {
        assert(s@.subrange(0, n as int) =~= s@);
    }

    // Strip leading whitespace.
    let mut lo: usize = 0;
    while lo < n && is_space_char(s.get_char(lo))
        invariant
            n == s@.len(),
            lo <= n,
            trim_front(s@) == trim_front(s@.subrange(lo as int, n as int)),
        decreases n - lo,
    {
        proof {
            let sub = s@.subrange(lo as int, n as int);
            assert(sub.first() == s@[lo as int]);
            assert(sub.drop_first() =~= s@.subrange(lo as int + 1, n as int));
        }
        lo = lo + 1;
    }
    proof {
        let sub = s@.subrange(lo as int, n as int);
        if lo < n {
            assert(sub.first() == s@[lo as int]);
        }
        assert(trim_front(sub) == sub);
    }

    // Strip trailing whitespace.
    let mut hi: usize = n;
    while hi > lo && is_space_char(s.get_char(hi - 1))
        invariant
            n == s@.len(),
            lo <= hi <= n,
            trimmed(s@) == trim_back(s@.subrange(lo as int, hi as int)),
        decreases hi,
    {
        proof {
            let sub = s@.subrange(lo as int, hi as int);
            assert(sub.last() == s@[hi - 1]);
            assert(sub.drop_last() =~= s@.subrange(lo as int, hi - 1));
        }
        hi = hi - 1;
    }
    proof {
        let sub = s@.subrange(lo as int, hi as int);
        if hi > lo {
            assert(sub.last() == s@[hi - 1]);
        }
        assert(trim_back(sub) == sub);
    }

    let t = s.substring_char(lo, hi);
    let m = hi - lo;
    proof {
        assert(t@ == trimmed(s@));
        assert(t@.len() == m);
    }

    // The sign, if any.
    let mut start: usize = 0;
    let mut neg = false;
    if m > 0 {
        let c0 = t.get_char(0);
        if c0 == '+' || c0 == '-' {
            start = 1;
            neg = c0 == '-';
        }
    }
    let ghost b = number_body(t@);
    proof {
        assert(neg == is_negative(t@));
        assert(b =~= t@.subrange(start as int, m as int));
        assert(b.len() == m - start);
    }

    // The integer digits, accumulated into the mantissa.
    let mut idx = start;
    let mut acc: u64 = 0;
    while idx < m && is_digit_char(t.get_char(idx))
        invariant
            t@.len() == m,
            start <= idx <= m,
            b == number_body(t@),
            t@ == trimmed(s@),
            b =~= t@.subrange(start as int, m as int),
            forall|j: int| start <= j < idx ==> is_digit(#[trigger] t@[j]),
            acc == digits_val(t@.subrange(start as int, idx as int)),
        decreases m - idx,
    {
        let c = t.get_char(idx);
        let d: u64 = ((c as u32) - 48) as u64;
        proof {
            assert(d == digit_val(c));
        }
        if acc > (u64::MAX - d) / 10 {
            proof {
                lemma_parse_overflow(t@, b, start as int, idx as int + 1, acc, d);
            }
            return Err(ReadError::Parse);
        }
        proof {
            assert(acc * 10 + d <= u64::MAX) by (nonlinear_arith)
                requires
                    acc <= (u64::MAX - d) / 10,
                    d <= 9,
            ;
            let sub1 = t@.subrange(start as int, idx as int + 1);
            assert(sub1.drop_last() =~= t@.subrange(start as int, idx as int));
            assert(sub1.last() == t@[idx as int]);
        }
        acc = acc * 10 + d;
        idx = idx + 1;
    }
    let ghost k: int = idx as int - start as int;
    proof {
        assert forall|i: int| 0 <= i < k implies is_digit(#[trigger] b[i]) by {
            assert(b[i] == t@[start + i]);
        }
        assert(t@.subrange(start as int, idx as int) =~= b.subrange(0, k as int));
        if idx < m {
            assert(b[k as int] == t@[idx as int]);
        }
    }

    if idx == m {
        // No decimal point: the body is all digits.
        proof {
            lemma_digit_prefix_len_is(b, k as int);
            assert(b.subrange(0, k as int) =~= b);
        }
        if idx == start {
            // Empty body: no digits at all.
            proof {
                assert(!body_wf(b));
            }
            return Err(ReadError::Parse);
        }
        proof {
            assert(body_wf(b));
            assert(body_digits(b) == b);
            assert(reading_ok(s@));
        }
        return Ok(DecValue { neg: neg && acc != 0, mantissa: acc, scale: 3 });
    }

    let c = t.get_char(idx);
    if !(c == '.') {
        // A non-digit that is not the decimal point.
        proof {
            lemma_digit_prefix_len_is(b, k as int);
            assert(!body_wf(b));
        }
        return Err(ReadError::Parse);
    }
    proof {
        assert(!is_digit('.'));
    }

    // The fraction digits behind the decimal point.
    let di = idx;
    let fstart = idx + 1;
    let mut idx2 = fstart;
    while idx2 < m
        invariant
            t@.len() == m,
            start <= di < m,
            fstart == di + 1,
            fstart <= idx2 <= m,
            k == di - start,
            b == number_body(t@),
            t@ == trimmed(s@),
            b =~= t@.subrange(start as int, m as int),
            forall|j: int| start <= j < di ==> is_digit(#[trigger] t@[j]),
            t@[di as int] == '.',
            forall|j: int| fstart <= j < idx2 ==> is_digit(#[trigger] t@[j]),
            acc == digits_val(
                t@.subrange(start as int, di as int) + t@.subrange(fstart as int, idx2 as int),
            ),
        decreases m - idx2,
    {
        let c2 = t.get_char(idx2);
        if !is_digit_char(c2) {
            // The fraction holds a non-digit: not a number.
            proof {
                lemma_not_wf_frac(t@, b, start as int, di as int, idx2 as int);
            }
            return Err(ReadError::Parse);
        }
        let d: u64 = ((c2 as u32) - 48) as u64;
        proof {
            assert(d == digit_val(c2));
        }
        if acc > (u64::MAX - d) / 10 {
            proof {
                lemma_parse_overflow_frac(t@, b, start as int, di as int, idx2 as int, acc, d);
            }
            return Err(ReadError::Parse);
        }
        proof {
            assert(acc * 10 + d <= u64::MAX) by (nonlinear_arith)
                requires
                    acc <= (u64::MAX - d) / 10,
                    d <= 9,
            ;
            let ds0 = t@.subrange(start as int, di as int) + t@.subrange(
                fstart as int,
                idx2 as int,
            );
            let ds1 = t@.subrange(start as int, di as int) + t@.subrange(
                fstart as int,
                idx2 as int + 1,
            );
            assert(ds1.drop_last() =~= ds0);
            assert(ds1.last() == t@[idx2 as int]);
        }
        acc = acc * 10 + d;
        idx2 = idx2 + 1;
    }

    if di == start && fstart == m {
        // A bare decimal point with no digits on either side.
        proof {
            lemma_digit_prefix_len_is(b, 0);
            assert(b.len() == 1);
            assert(!body_wf(b));
        }
        return Err(ReadError::Parse);
    }

    let fl = m - fstart;
    if fl > usize::MAX - 3 {
        proof {
            lemma_parse_scale_overflow(t@, b, start as int, di as int, fl as int);
        }
        return Err(ReadError::Parse);
    }
    proof {
        lemma_parse_frac_ok(t@, b, start as int, di as int, acc);
    }
    Ok(DecValue { neg: neg && acc != 0, mantissa: acc, scale: fl + 3 })
}

/// Reads one sensor sample from the content of the sensor source, or from
/// its absence: an unreadable source is an I/O error, unparsable content a
/// parse error, and well-formed content the denoted reading.
pub fn read(content: Option<&str>) -> (r: Result<DecValue, ReadError>)
    ensures
        content is None ==> r == Err::<DecValue, ReadError>(ReadError::Io),
        match content {
            Option::Some(s) => r == (if reading_ok(s@) {
                Ok::<DecValue, ReadError>(spec_reading(s@))
            } else {
                Err::<DecValue, ReadError>(ReadError::Parse)
            }),
            Option::None => true,
        },
{
    match content {
        Option::Some(s) => parse_reading(s),
        Option::None => Err(ReadError::Io),
    }
}

} // verus!
