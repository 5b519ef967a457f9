//! The fixed-precision decimal format of the value field.
//!
//! A value is written as an optional minus sign, one to three integer
//! digits, a decimal point, and exactly one fractional digit.  Such a text
//! denotes an exact number of tenths, so parsing and rendering work on
//! `i64` tenths and are exact in both directions.

use vstd::prelude::*;

verus! {

/// `-` (0x2d)
pub const MINUS: u8 = 45;
/// `.` (0x2e)
pub const DOT: u8 = 46;
/// `;` (0x3b)
pub const SEMI: u8 = 59;
/// `\n` (0x0a)
pub const NEWLINE: u8 = 10;

/// Largest magnitude a value can carry: `999.9` as tenths.
pub const MAX_TENTHS: i64 = 9999;

pub open spec fn is_digit(b: u8) -> bool {
    48 <= b <= 57
}

pub open spec fn digit_val(b: u8) -> int {
    b - 48
}

/// Value of a big-endian sequence of ASCII decimal digits.
pub open spec fn digits_val(s: Seq<u8>) -> int
    decreases s.len(),
{
    if s.len() == 0 {
        0
    } else {
        digits_val(s.drop_last()) * 10 + digit_val(s.last())
    }
}

pub open spec fn all_digits(s: Seq<u8>) -> bool {
    forall|i: int| 0 <= i < s.len() ==> is_digit(#[trigger] s[i])
}

/// The unsigned part of a value: one to three digits, a point, one digit.
pub open spec fn body_ok(s: Seq<u8>) -> bool {
    &&& 3 <= s.len() <= 5
    &&& s[s.len() - 2] == DOT
    &&& all_digits(s.subrange(0, s.len() - 2))
    &&& is_digit(s[s.len() - 1])
}

/// Tenths denoted by an unsigned value text.
pub open spec fn body_tenths(s: Seq<u8>) -> int
    recommends
        body_ok(s),
{
    digits_val(s.subrange(0, s.len() - 2)) * 10 + digit_val(s[s.len() - 1])
}

/// The unsigned part of a possibly signed value text.
pub open spec fn numeral_body(s: Seq<u8>) -> Seq<u8> {
    if s.len() > 0 && s[0] == MINUS {
        s.skip(1)
    } else {
        s
    }
}

/// Whether a value text is well formed.
pub open spec fn valid_numeral(s: Seq<u8>) -> bool {
    body_ok(numeral_body(s))
}

/// Tenths denoted by a well-formed value text.
pub open spec fn numeral_tenths(s: Seq<u8>) -> int
    recommends
        valid_numeral(s),
{
    if s.len() > 0 && s[0] == MINUS {
        -body_tenths(numeral_body(s))
    } else {
        body_tenths(numeral_body(s))
    }
}

pub open spec fn in_value_range(v: int) -> bool {
    -(MAX_TENTHS as int) <= v <= MAX_TENTHS as int
}

proof fn lemma_digits_val_bounds(s: Seq<u8>)
    requires
        all_digits(s),
        s.len() <= 3,
    ensures
        0 <= digits_val(s),
        s.len() <= 1 ==> digits_val(s) <= 9,
        s.len() <= 2 ==> digits_val(s) <= 99,
        digits_val(s) <= 999,
    decreases s.len(),
{
    if s.len() > 0 {
        assert(all_digits(s.drop_last())) by {
            assert(forall|i: int|
                0 <= i < s.len() - 1 ==> #[trigger] s.drop_last()[i] == s[i]);
        }
        lemma_digits_val_bounds(s.drop_last());
    }
}

/// A well-formed value text denotes at most `999.9` in magnitude.
pub proof fn lemma_numeral_in_range(s: Seq<u8>)
    requires
        valid_numeral(s),
    ensures
        in_value_range(numeral_tenths(s)),
{
    let body = numeral_body(s);
    lemma_digits_val_bounds(body.subrange(0, body.len() - 2));
}

/// Parses a value text into tenths.  Returns `None` exactly on malformed
/// text: a missing or misplaced decimal point, a non-digit character, or
/// an integer part that is empty or longer than three digits.
pub fn parse_tenths(s: &[u8]) -> (r: Option<i64>)
    ensures
        r is Some <==> valid_numeral(s@),
        r is Some ==> r->0 == numeral_tenths(s@) && in_value_range(r->0 as int),
{
    let n = s.len();
    let neg = n > 0 && s[0] == MINUS;
    let b0: usize = if neg { 1 } else { 0 };
    proof {
        if neg {
            assert(numeral_body(s@) =~= s@.skip(1));
        }
    }
    let ghost body = numeral_body(s@);
    if n - b0 < 3 || n - b0 > 5 {
        return None;
    }
    if s[n - 2] != DOT {
        assert(body[body.len() - 2] == s@[n as int - 2]);
        return None;
    }
    let last = s[n - 1];
    if !(48 <= last && last <= 57) {
        assert(body[body.len() - 1] == s@[n as int - 1]);
        return None;
    }
    let mut val: i64 = 0;
    let mut i: usize = b0;
    while i < n - 2
        invariant
            b0 <= i <= n - 2,
            n == s@.len(),
            b0 <= 1,
            3 <= n - b0 <= 5,
            body == numeral_body(s@),
            body =~= s@.skip(b0 as int),
            val == digits_val(s@.subrange(b0 as int, i as int)),
            all_digits(s@.subrange(b0 as int, i as int)),
            0 <= val <= 999,
        decreases n - i,
    {
        let b = s[i];
        if !(48 <= b && b <= 57) {
            assert(body[i - b0] == s@[i as int]);
            assert(body.subrange(0, body.len() - 2)[i - b0] == s@[i as int]);
            return None;
        }
        proof {
            let pre = s@.subrange(b0 as int, i as int);
            let ext = s@.subrange(b0 as int, i as int + 1);
            assert(ext.drop_last() =~= pre);
            lemma_digits_val_bounds(ext);
        }
        val = val * 10 + (b - 48) as i64;
        i = i + 1;
    }
    proof {
        assert(s@.subrange(b0 as int, n as int - 2) =~= body.subrange(0, body.len() - 2));
        lemma_digits_val_bounds(body.subrange(0, body.len() - 2));
        assert(body[body.len() - 2] == s@[n as int - 2]);
        assert(body[body.len() - 1] == s@[n as int - 1]);
    }
    let mag = val * 10 + (last - 48) as i64;
    if neg {
        Some(-mag)
    } else {
        Some(mag)
    }
}

pub open spec fn spec_digit_byte(d: int) -> u8 {
    (48 + d) as u8
}

/// Decimal digits of an integer part, at most three digits.
pub open spec fn spec_render_int(n: int) -> Seq<u8>
    recommends
        0 <= n <= 999,
{
    if n < 10 {
        seq![spec_digit_byte(n)]
    } else if n < 100 {
        seq![spec_digit_byte(n / 10), spec_digit_byte(n % 10)]
    } else {
        seq![spec_digit_byte(n / 100), spec_digit_byte((n / 10) % 10), spec_digit_byte(n % 10)]
    }
}

/// Text of a value given in tenths: optional sign, integer part, point,
/// one fractional digit.
pub open spec fn spec_render_tenths(v: int) -> Seq<u8>
    recommends
        in_value_range(v),
{
    let m = if v < 0 {
        -v
    } else {
        v
    };
    let sign: Seq<u8> = if v < 0 {
        seq![MINUS]
    } else {
        Seq::empty()
    };
    sign + spec_render_int(m / 10) + seq![DOT, spec_digit_byte(m % 10)]
}

/// Renders tenths as value text, exactly one fractional digit.
pub fn render_tenths(v: i64) -> (out: Vec<u8>)
    requires
        in_value_range(v as int),
    ensures
        out@ == spec_render_tenths(v as int),
{
    let mut out: Vec<u8> = Vec::new();
    let m: u64 = if v < 0 {
        out.push(MINUS);
        (-v) as u64
    } else {
        v as u64
    };
    let ip = m / 10;
    let f = m % 10;
    if ip >= 100 {
        out.push(48 + (ip / 100) as u8);
        out.push(48 + ((ip / 10) % 10) as u8);
        out.push(48 + (ip % 10) as u8);
    } else if ip >= 10 {
        out.push(48 + (ip / 10) as u8);
        out.push(48 + (ip % 10) as u8);
    } else {
        out.push(48 + ip as u8);
    }
    out.push(DOT);
    out.push(48 + f as u8);
    proof {
        assert(out@ =~= spec_render_tenths(v as int));
    }
    out
}

/// The canonical rounding policy, applied when a mean is formed: the exact
/// quotient `s / c` in tenths is rounded to the nearest whole tenth, ties
/// away from negative infinity.
pub open spec fn round_half_up(s: int, c: int) -> int
    recommends
        c >= 1,
{
    (2 * s + c) / (2 * c)
}

/// Rendering and parsing are inverse: the text rendered for any
/// in-range tenths value is a well-formed numeral denoting that value.
pub proof fn lemma_render_parse(v: int)
    requires
        in_value_range(v),
    ensures
        valid_numeral(spec_render_tenths(v)),
        numeral_tenths(spec_render_tenths(v)) == v,
{
    let m = if v < 0 {
        -v
    } else {
        v
    };
    let ip = m / 10;
    let f = m % 10;
    vstd::arithmetic::div_mod::lemma_fundamental_div_mod(m, 10);
    vstd::arithmetic::div_mod::lemma_mod_division_less_than_divisor(m, 10);
    assert(0 <= ip <= 999);
    let digits = spec_render_int(ip);
    lemma_render_int_digits(ip);
    let whole = spec_render_tenths(v);
    let body = numeral_body(whole);
    if v < 0 {
        assert(whole[0] == MINUS);
        assert(body =~= digits + seq![DOT, spec_digit_byte(f)]);
    } else {
        assert(whole[0] == digits[0]);
        assert(is_digit(whole[0]));
        assert(body =~= digits + seq![DOT, spec_digit_byte(f)]);
    }
    assert(body.subrange(0, body.len() - 2) =~= digits);
    assert(body[body.len() - 2] == DOT);
    assert(body[body.len() - 1] == spec_digit_byte(f));
    assert(body_tenths(body) == ip * 10 + f);
}

/// The digit text of an integer part denotes that integer.
proof fn lemma_render_int_digits(n: int)
    requires
        0 <= n <= 999,
    ensures
        1 <= spec_render_int(n).len() <= 3,
        all_digits(spec_render_int(n)),
        digits_val(spec_render_int(n)) == n,
{
    reveal_with_fuel(digits_val, 4);
    vstd::arithmetic::div_mod::lemma_fundamental_div_mod(n, 10);
    vstd::arithmetic::div_mod::lemma_mod_division_less_than_divisor(n, 10);
    if n < 10 {
        let ds = seq![spec_digit_byte(n)];
        assert(ds.drop_last() =~= Seq::<u8>::empty());
        assert(digits_val(ds) == digit_val(spec_digit_byte(n)));
    } else if n < 100 {
        let ds = seq![spec_digit_byte(n / 10), spec_digit_byte(n % 10)];
        let hd = seq![spec_digit_byte(n / 10)];
        assert(ds.drop_last() =~= hd);
        assert(hd.drop_last() =~= Seq::<u8>::empty());
        assert(digits_val(ds) == (n / 10) * 10 + n % 10);
    } else {
        let ds = seq![
            spec_digit_byte(n / 100),
            spec_digit_byte((n / 10) % 10),
            spec_digit_byte(n % 10),
        ];
        let hd2 = seq![spec_digit_byte(n / 100), spec_digit_byte((n / 10) % 10)];
        let hd1 = seq![spec_digit_byte(n / 100)];
        assert(ds.drop_last() =~= hd2);
        assert(hd2.drop_last() =~= hd1);
        assert(hd1.drop_last() =~= Seq::<u8>::empty());
        vstd::arithmetic::div_mod::lemma_fundamental_div_mod(n / 10, 10);
        vstd::arithmetic::div_mod::lemma_mod_division_less_than_divisor(n / 10, 10);
        vstd::arithmetic::div_mod::lemma_div_denominator(n, 10, 10);
        assert(digits_val(ds) == ((n / 100) * 10 + (n / 10) % 10) * 10 + n % 10);
        assert((n / 10) / 10 == n / 100);
        assert(n / 10 == 10 * (n / 100) + (n / 10) % 10);
        assert(((n / 100) * 10 + (n / 10) % 10) * 10 + n % 10 == n) by (nonlinear_arith)
            requires
                n / 10 == 10 * (n / 100) + (n / 10) % 10,
                n == 10 * (n / 10) + n % 10,
        ;
    }
}

/// Rounding is idempotent: a quotient that is already a whole number of
/// tenths is returned unchanged.
pub proof fn lemma_round_half_up_exact(k: int, c: int)
    requires
        c >= 1,
    ensures
        round_half_up(c * k, c) == k,
{
    assert(2 * (c * k) + c == (2 * c) * k + c) by (nonlinear_arith);
    vstd::arithmetic::div_mod::lemma_div_multiples_vanish_fancy(k, c, 2 * c);
}

} // verus!
