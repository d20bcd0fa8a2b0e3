//! The value of a numeral lexeme: decimal or hexadecimal, integer or float.
use vstd::prelude::*;
use crate::error::LexerError;
use crate::token::{FloatLit, FloatV, Token, TokenV, result_view};

verus! {

pub open spec fn is_dec_digit(b: u8) -> bool {
    0x30 <= b <= 0x39
}

pub open spec fn is_hex_digit(b: u8) -> bool {
    is_dec_digit(b) || 0x41 <= b <= 0x46 || 0x61 <= b <= 0x66
}

pub open spec fn is_digit_of(b: u8, hex: bool) -> bool {
    if hex {
        is_hex_digit(b)
    } else {
        is_dec_digit(b)
    }
}

/// The value of a decimal or hexadecimal digit.
pub open spec fn digit_value(b: u8) -> u8 {
    if is_dec_digit(b) {
        (b - 0x30) as u8
    } else if 0x41 <= b <= 0x46 {
        (b - 0x37) as u8
    } else {
        (b - 0x57) as u8
    }
}

pub open spec fn digit_values(s: Seq<u8>) -> Seq<u8> {
    s.map_values(|b: u8| digit_value(b))
}

pub open spec fn all_digits(s: Seq<u8>, hex: bool) -> bool {
    forall|i: int| 0 <= i < s.len() ==> is_digit_of(#[trigger] s[i], hex)
}

/// The number that the digit values `d` denote in base `base`, most significant first.
pub open spec fn value_of(d: Seq<u8>, base: nat) -> nat
    decreases d.len(),
{
    if d.len() == 0 {
        0
    } else {
        value_of(d.drop_last(), base) * base + d.last() as nat
    }
}

/// The index of the first byte of `s` equal to `a` or `b`, or the length of `s` if there is none.
pub open spec fn first_index(s: Seq<u8>, a: u8, b: u8) -> int
    decreases s.len(),
{
    if s.len() == 0 {
        0
    } else if s[0] == a || s[0] == b {
        0
    } else {
        1 + first_index(s.drop_first(), a, b)
    }
}

pub open spec fn hex_prefixed(s: Seq<u8>) -> bool {
    s.len() >= 2 && s[0] == 0x30 && (s[1] == 0x78 || s[1] == 0x58)
}

/// Where the digits start: after `0x` or `0X` for a hexadecimal numeral.
pub open spec fn digits_start(s: Seq<u8>) -> int {
    if hex_prefixed(s) {
        2
    } else {
        0
    }
}

/// Where the exponent marker stands (`p`/`P` in hexadecimal, `e`/`E` in decimal), or the length.
pub open spec fn exponent_marker(s: Seq<u8>) -> int {
    let p = digits_start(s);
    if hex_prefixed(s) {
        p + first_index(s.subrange(p, s.len() as int), 0x70, 0x50)
    } else {
        p + first_index(s.subrange(p, s.len() as int), 0x65, 0x45)
    }
}

/// Where the radix point stands in the mantissa, or the exponent marker's index.
pub open spec fn radix_point(s: Seq<u8>) -> int {
    let p = digits_start(s);
    p + first_index(s.subrange(p, exponent_marker(s)), 0x2e, 0x2e)
}

pub open spec fn integer_part(s: Seq<u8>) -> Seq<u8> {
    s.subrange(digits_start(s), radix_point(s))
}

pub open spec fn fraction_part(s: Seq<u8>) -> Seq<u8> {
    if radix_point(s) < exponent_marker(s) {
        s.subrange(radix_point(s) + 1, exponent_marker(s))
    } else {
        Seq::empty()
    }
}

pub open spec fn has_exponent(s: Seq<u8>) -> bool {
    exponent_marker(s) < s.len()
}

pub open spec fn exponent_part(s: Seq<u8>) -> Seq<u8> {
    s.subrange(exponent_marker(s) + 1, s.len() as int)
}

pub open spec fn signed(e: Seq<u8>) -> bool {
    e.len() > 0 && (e[0] == 0x2b || e[0] == 0x2d)
}

pub open spec fn exponent_digits(e: Seq<u8>) -> Seq<u8> {
    if signed(e) {
        e.drop_first()
    } else {
        e
    }
}

/// An exponent: an optional sign and at least one decimal digit.
pub open spec fn exponent_well_formed(e: Seq<u8>) -> bool {
    exponent_digits(e).len() > 0 && all_digits(exponent_digits(e), false)
}

pub open spec fn exponent_value(e: Seq<u8>) -> int {
    let v = value_of(digit_values(exponent_digits(e)), 10) as int;
    if e.len() > 0 && e[0] == 0x2d {
        -v
    } else {
        v
    }
}

/// A numeral is well formed when its mantissa holds at least one digit of its base and at most
/// one radix point, and its exponent, if any, is well formed.
pub open spec fn numeral_well_formed(s: Seq<u8>) -> bool {
    let hex = hex_prefixed(s);
    &&& all_digits(integer_part(s), hex)
    &&& all_digits(fraction_part(s), hex)
    &&& integer_part(s).len() + fraction_part(s).len() > 0
    &&& has_exponent(s) ==> exponent_well_formed(exponent_part(s))
}

pub open spec fn numeral_base(s: Seq<u8>) -> nat {
    if hex_prefixed(s) {
        16
    } else {
        10
    }
}

/// The exponent of a float numeral: the written exponent, less one step per fractional digit
/// (four binary steps per hexadecimal digit).
pub open spec fn float_exponent(s: Seq<u8>) -> int {
    let e = if has_exponent(s) {
        exponent_value(exponent_part(s))
    } else {
        0
    };
    e - fraction_part(s).len() * (if hex_prefixed(s) {
        4int
    } else {
        1int
    })
}

/// The token that a numeral lexeme denotes.
///
/// Without radix point and exponent it is an integer, unless its value exceeds `i64::MAX`;
/// otherwise it is a float, however large its exponent. Only a malformed numeral is `BadNumber`.
pub open spec fn numeral_token(s: Seq<u8>) -> Result<TokenV, LexerError> {
    let digits = digit_values(integer_part(s) + fraction_part(s));
    let value = value_of(digits, numeral_base(s));
    if !numeral_well_formed(s) {
        Err(LexerError::BadNumber)
    } else if radix_point(s) == s.len() && value <= i64::MAX {
        Ok(TokenV::Integer(value as i64))
    } else {
        Ok(TokenV::Float(FloatV { hex: hex_prefixed(s), mantissa: digits, exponent: float_exponent(s) }))
    }
}

proof fn lemma_first_index(s: Seq<u8>, a: u8, b: u8, i: int)
    requires
        0 <= i <= s.len(),
        forall|j: int| 0 <= j < i ==> s[j] != a && s[j] != b,
        i == s.len() || s[i] == a || s[i] == b,
    ensures
        first_index(s, a, b) == i,
    decreases i,
{
    if i > 0 {
        lemma_first_index(s.drop_first(), a, b, i - 1);
    }
}

pub proof fn lemma_value_of_prefix(d: Seq<u8>, base: nat, i: int)
    requires
        base >= 1,
        0 <= i <= d.len(),
    ensures
        value_of(d.take(i), base) <= value_of(d, base),
    decreases d.len(),
{
    if i < d.len() {
        lemma_value_of_prefix(d.drop_last(), base, i);
        assert(d.drop_last().take(i) =~= d.take(i));
        assert(value_of(d, base) == value_of(d.drop_last(), base) * base + d.last() as nat);
        assert(value_of(d.drop_last(), base) * base >= value_of(d.drop_last(), base)) by (nonlinear_arith)
            requires
                base >= 1,
        ;
    } else {
        assert(d.take(i) =~= d);
    }
}

/// The decimal digits of `n`, most significant first, without leading zeros.
pub open spec fn decimal_rendering(n: nat) -> Seq<u8>
    decreases n,
{
    if n < 10 {
        seq![(0x30 + n) as u8]
    } else {
        decimal_rendering(n / 10).push((0x30 + n % 10) as u8)
    }
}

/// The decimal digit characters of the digit values `d`.
pub open spec fn digit_chars(d: Seq<u8>) -> Seq<u8> {
    d.map_values(|x: u8| (0x30 + x) as u8)
}

/// The canonical rendering of a decimal float: its mantissa digits, `e`, and its exponent in
/// decimal.
pub open spec fn float_rendering(f: FloatV) -> Seq<u8> {
    let sign = if f.exponent < 0 {
        seq![0x2du8]
    } else {
        Seq::<u8>::empty()
    };
    let magnitude = if f.exponent < 0 {
        -f.exponent
    } else {
        f.exponent
    };
    digit_chars(f.mantissa) + seq![0x65u8] + sign + decimal_rendering(magnitude as nat)
}

pub proof fn lemma_decimal_rendering(n: nat)
    ensures
        decimal_rendering(n).len() > 0,
        all_digits(decimal_rendering(n), false),
        value_of(digit_values(decimal_rendering(n)), 10) == n,
    decreases n,
{
    let r = decimal_rendering(n);
    if n >= 10 {
        lemma_decimal_rendering(n / 10);
        let p = decimal_rendering(n / 10);
        assert(digit_values(r) =~= digit_values(p).push((n % 10) as u8));
        assert(digit_values(r).drop_last() =~= digit_values(p));
        assert(digit_values(r).last() == n % 10);
        assert((n / 10) * 10 + n % 10 == n);
        assert(value_of(digit_values(r), 10) == value_of(digit_values(p), 10) * 10 + n % 10);
        assert forall|i: int| 0 <= i < r.len() implies is_digit_of(#[trigger] r[i], false) by {
            if i < p.len() {
                assert(r[i] == p[i]);
            }
        }
    } else {
        assert(digit_values(r) =~= seq![n as u8]);
        assert(digit_values(r).drop_last() =~= Seq::<u8>::empty());
        assert(value_of(Seq::<u8>::empty(), 10) == 0);
        assert(value_of(digit_values(r), 10) == value_of(Seq::<u8>::empty(), 10) * 10 + n);
    }
}

proof fn lemma_digit_chars(d: Seq<u8>)
    requires
        forall|i: int| 0 <= i < d.len() ==> d[i] < 10,
    ensures
        all_digits(digit_chars(d), false),
        digit_values(digit_chars(d)) =~= d,
{
}

/// A run of decimal digits holds neither a radix point nor an exponent marker.
proof fn lemma_digits_no_marker(s: Seq<u8>)
    requires
        all_digits(s, false),
    ensures
        first_index(s, 0x65, 0x45) == s.len(),
        first_index(s, 0x2e, 0x2e) == s.len(),
{
    lemma_first_index(s, 0x65, 0x45, s.len() as int);
    lemma_first_index(s, 0x2e, 0x2e, s.len() as int);
}

/// The decimal rendering of a non-negative integer reads back as that integer.
pub proof fn lemma_integer_rendering_reads_back(n: i64)
    requires
        n >= 0,
    ensures
        numeral_token(decimal_rendering(n as nat)) == Ok::<TokenV, LexerError>(TokenV::Integer(n)),
{
    let s = decimal_rendering(n as nat);
    lemma_decimal_rendering(n as nat);
    assert(!hex_prefixed(s));
    assert(s.subrange(0, s.len() as int) =~= s);
    lemma_digits_no_marker(s);
    assert(exponent_marker(s) == s.len());
    assert(radix_point(s) == s.len());
    assert(integer_part(s) =~= s);
    assert(integer_part(s) + fraction_part(s) =~= s);
}

/// The canonical rendering of a decimal float reads back as that float.
pub proof fn lemma_float_rendering_reads_back(f: FloatV)
    requires
        !f.hex,
        f.mantissa.len() > 0,
        forall|i: int| 0 <= i < f.mantissa.len() ==> f.mantissa[i] < 10,
    ensures
        numeral_token(float_rendering(f)) == Ok::<TokenV, LexerError>(TokenV::Float(f)),
{
    let s = float_rendering(f);
    let m = digit_chars(f.mantissa);
    let magnitude = if f.exponent < 0 {
        -f.exponent
    } else {
        f.exponent
    };
    let r = decimal_rendering(magnitude as nat);
    lemma_decimal_rendering(magnitude as nat);
    lemma_digit_chars(f.mantissa);
    let ml = m.len() as int;
    assert(s[ml] == 0x65);
    assert(forall|i: int| 0 <= i < ml ==> s[i] == m[i]);
    assert(!hex_prefixed(s)) by {
        assert(is_dec_digit(s[0]));
        if s.len() >= 2 && ml >= 2 {
            assert(s[1] == m[1]);
        }
    }
    assert(s.subrange(0, s.len() as int) =~= s);
    lemma_first_index(s, 0x65, 0x45, ml);
    assert(exponent_marker(s) == ml);
    assert(s.subrange(0, ml) =~= m);
    lemma_digits_no_marker(m);
    assert(radix_point(s) == ml);
    assert(integer_part(s) =~= m);
    assert(integer_part(s) + fraction_part(s) =~= m);
    let e = exponent_part(s);
    if f.exponent < 0 {
        assert(e =~= seq![0x2du8] + r);
        assert(exponent_digits(e) =~= r);
    } else {
        assert(e =~= r);
        assert(!signed(e));
    }
    assert(float_exponent(s) == f.exponent);
    assert(f =~= FloatV { hex: false, mantissa: digit_values(m), exponent: float_exponent(s) });
}

/// Index of the first byte in `s[from..to]` equal to `a` or `b`, or `to`.
fn find_either(s: &[u8], from: usize, to: usize, a: u8, b: u8) -> (r: usize)
    requires
        from <= to <= s@.len(),
    ensures
        r == from + first_index(s@.subrange(from as int, to as int), a, b),
        from <= r <= to,
{
    let mut i = from;
    while i < to && s[i] != a && s[i] != b
        invariant
            from <= i <= to <= s@.len(),
            forall|j: int| from <= j < i ==> s@[j] != a && s@[j] != b,
        decreases to - i,
    {
        i += 1;
    }
    proof {
        lemma_first_index(s@.subrange(from as int, to as int), a, b, i - from);
    }
    i
}

fn digit_value_of(b: u8) -> (r: u8)
    requires
        is_hex_digit(b),
    ensures
        r == digit_value(b),
        r < 16,
        is_dec_digit(b) ==> r < 10,
{
    if 0x30 <= b && b <= 0x39 {
        b - 0x30
    } else if 0x41 <= b && b <= 0x46 {
        b - 0x37
    } else {
        b - 0x57
    }
}

/// Appends the digit values of `s[from..to]` to `out`; false, with `out` in some state, if a
/// byte there is no digit of the base.
fn push_digits(s: &[u8], from: usize, to: usize, hex: bool, out: &mut Vec<u8>) -> (ok: bool)
    requires
        from <= to <= s@.len(),
    ensures
        ok == all_digits(s@.subrange(from as int, to as int), hex),
        ok ==> final(out)@ == old(out)@ + digit_values(s@.subrange(from as int, to as int)),
{
    let mut i = from;
    while i < to
        invariant
            from <= i <= to <= s@.len(),
            all_digits(s@.subrange(from as int, i as int), hex),
            out@ == old(out)@ + digit_values(s@.subrange(from as int, i as int)),
        decreases to - i,
    {
        let c = s[i];
        let is_digit = if hex {
            (0x30 <= c && c <= 0x39) || (0x41 <= c && c <= 0x46) || (0x61 <= c && c <= 0x66)
        } else {
            0x30 <= c && c <= 0x39
        };
        if !is_digit {
            assert(!is_digit_of(s@.subrange(from as int, to as int)[i - from], hex));
            return false;
        }
        let v = digit_value_of(c);
        out.push(v);
        i += 1;
        assert(s@.subrange(from as int, i as int) =~= s@.subrange(from as int, i - 1).push(c));
        assert(digit_values(s@.subrange(from as int, i as int)) =~= digit_values(
            s@.subrange(from as int, i - 1),
        ).push(v));
    }
    true
}

/// The value of the digit values `d` in base `base` when it is at most `cap`.
fn value_capped(d: &Vec<u8>, base: u64, cap: u128) -> (r: Option<u128>)
    requires
        base == 10 || base == 16,
        cap <= 0x1_0000_0000_0000_0000_0000,
    ensures
        r == (if value_of(d@, base as nat) <= cap {
            Some(value_of(d@, base as nat) as u128)
        } else {
            None::<u128>
        }),
{
    let mut acc: u128 = 0;
    let mut i: usize = 0;
    while i < d.len()
        invariant
            i <= d@.len(),
            base == 10 || base == 16,
            cap <= 0x1_0000_0000_0000_0000_0000,
            acc == value_of(d@.take(i as int), base as nat),
            acc <= cap,
        decreases d@.len() - i,
    {
        assert(d@.take(i + 1).drop_last() =~= d@.take(i as int));
        assert(acc * (base as u128) + (d[i as int] as u128) <= 0x1_0000_0000_0000_0000_0000 * 16 + 256)
            by (nonlinear_arith)
            requires
                acc <= 0x1_0000_0000_0000_0000_0000,
                base <= 16,
                d[i as int] < 256,
        ;
        let next = acc * (base as u128) + (d[i] as u128);
        i += 1;
        if next > cap {
            proof {
                lemma_value_of_prefix(d@, base as nat, i as int);
            }
            return None;
        }
        acc = next;
    }
    assert(d@.take(i as int) =~= d@);
    Some(acc)
}

/// The exponent written after the marker at `k`: whether it is negative, and the values of its
/// digits (none where there is no marker); `None` where it is malformed.
fn read_exponent(s: &[u8], k: usize) -> (r: Option<(bool, Vec<u8>)>)
    requires
        k == exponent_marker(s@),
        k <= s@.len(),
    ensures
        k == s@.len() ==> (r matches Some((neg, d)) && !neg && d@ == Seq::<u8>::empty()),
        k < s@.len() ==> (r is Some <==> exponent_well_formed(exponent_part(s@))),
        k < s@.len() ==> (r matches Some((neg, d)) ==> d@ == digit_values(exponent_digits(
            exponent_part(s@),
        )) && neg == (exponent_part(s@)[0] == 0x2d)),
{
    let len = s.len();
    if k == len {
        return Some((false, Vec::new()));
    }
    let mut e_start = k + 1;
    let negative = e_start < len && s[e_start] == 0x2d;
    if e_start < len && (s[e_start] == 0x2b || s[e_start] == 0x2d) {
        e_start += 1;
    }
    assert(s@.subrange(e_start as int, len as int) =~= exponent_digits(exponent_part(s@)));
    if e_start == len {
        return None;
    }
    let mut e_digits: Vec<u8> = Vec::new();
    let e_ok = push_digits(s, e_start, len, false, &mut e_digits);
    if !e_ok {
        return None;
    }
    assert(e_digits@ =~= digit_values(exponent_digits(exponent_part(s@))));
    Some((negative, e_digits))
}

/// Reads the token that a numeral lexeme denotes.
pub fn read_numeral(s: &[u8]) -> (r: Result<Token, LexerError>)
    ensures
        result_view(r) == numeral_token(s@),
{
    let len = s.len();
    let hex = len >= 2 && s[0] == 0x30 && (s[1] == 0x78 || s[1] == 0x58);
    let p: usize = if hex {
        2
    } else {
        0
    };
    let k = if hex {
        find_either(s, p, len, 0x70, 0x50)
    } else {
        find_either(s, p, len, 0x65, 0x45)
    };
    let d = find_either(s, p, k, 0x2e, 0x2e);
    assert(hex == hex_prefixed(s@));
    assert(k == exponent_marker(s@));
    assert(d == radix_point(s@));
    let mut mantissa: Vec<u8> = Vec::new();
    let int_ok = push_digits(s, p, d, hex, &mut mantissa);
    if !int_ok {
        return Err(LexerError::BadNumber);
    }
    let frac_len: usize = if d < k {
        k - d - 1
    } else {
        0
    };
    if d < k {
        let frac_ok = push_digits(s, d + 1, k, hex, &mut mantissa);
        if !frac_ok {
            return Err(LexerError::BadNumber);
        }
    }
    assert(mantissa@ =~= digit_values(integer_part(s@) + fraction_part(s@)));
    if mantissa.len() == 0 {
        return Err(LexerError::BadNumber);
    }
    let (negative, exponent_digits) = match read_exponent(s, k) {
        Some(e) => e,
        None => {
            return Err(LexerError::BadNumber);
        },
    };
    let base: u64 = if hex {
        16
    } else {
        10
    };
    if d == len {
        if let Some(v) = value_capped(&mantissa, base, 0x7fff_ffff_ffff_ffff) {
            return Ok(Token::Integer(v as i64));
        }
    }
    proof {
        assert(value_of(Seq::<u8>::empty(), 10) == 0);
        assert(fraction_part(s@).len() == frac_len);
    }
    Ok(
        Token::Float(
            FloatLit { hex, mantissa, fraction_digits: frac_len, exponent_negative: negative, exponent_digits },
        ),
    )
}

impl FloatLit {
    /// The exponent of 2 (when `hex`) or 10 that scales the mantissa, where it fits in an `i64`.
    pub fn exponent(&self) -> (r: Option<i64>)
        ensures
            r == (if i64::MIN <= self@.exponent <= i64::MAX {
                Some(self@.exponent as i64)
            } else {
                None::<i64>
            }),
    {
        let written = match value_capped(&self.exponent_digits, 10, 0x40_0000_0000_0000_0000) {
            Some(v) => v as i128,
            None => {
                return None;
            },
        };
        let step: i128 = if self.hex {
            4
        } else {
            1
        };
        let signed_written = if self.exponent_negative {
            -written
        } else {
            written
        };
        let e = signed_written - (self.fraction_digits as i128) * step;
        if e < i64::MIN as i128 || e > i64::MAX as i128 {
            None
        } else {
            Some(e as i64)
        }
    }
}

} // verus!
