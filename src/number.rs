use vstd::prelude::*;

verus! {

/// ASCII `0`.
pub const DIGIT_ZERO: u8 = 48;

/// ASCII `9`.
pub const DIGIT_NINE: u8 = 57;

/// ASCII `-`, the sign of a negative value.
pub const MINUS: u8 = 45;

/// ASCII `.`, the decimal point.
pub const DOT: u8 = 46;

/// Largest magnitude, in tenths, of a value with at most two integer digits.
pub const MAX_TENTHS: i64 = 999;

/// Errors reported while reading records.
#[derive(Debug, Clone, Copy, PartialEq, Eq)]
pub enum ScanError {
    /// A byte that should have been an ASCII digit was not one.
    InvalidDigit,
    /// The record starting at this byte offset does not have the shape
    /// `key;[-]d.d` or `key;[-]dd.d` followed by a line terminator.
    MalformedRecord(usize),
}

/// An ASCII decimal digit.
pub open spec fn is_digit(b: u8) -> bool {
    DIGIT_ZERO <= b <= DIGIT_NINE
}

/// Every byte is an ASCII decimal digit.
pub open spec fn all_digits(s: Seq<u8>) -> bool {
    forall|i: int| 0 <= i < s.len() ==> is_digit(#[trigger] s[i])
}

/// Decimal value of a run of ASCII digits, most significant first.
pub open spec fn digits_value(s: Seq<u8>) -> nat
    decreases s.len(),
{
    if s.len() == 0 {
        0
    } else {
        digits_value(s.drop_last()) * 10 + (s.last() - DIGIT_ZERO) as nat
    }
}

/// `n` digits denote a number below `10^n`.
pub proof fn lemma_digits_value_bound(s: Seq<u8>)
    requires
        all_digits(s),
    ensures
        digits_value(s) < pow10(s.len()),
    decreases s.len(),
{
    if s.len() > 0 {
        lemma_digits_value_bound(s.drop_last());
        assert(is_digit(s[s.len() - 1]));
    }
}

/// `10^n`.
pub open spec fn pow10(n: nat) -> nat
    decreases n,
{
    if n == 0 {
        1
    } else {
        10 * pow10((n - 1) as nat)
    }
}

/// Reads a run of ASCII digits as an unsigned integer: the accumulator is
/// multiplied by ten and the digit added, once per byte.
pub fn parse_int(bytes: &[u8]) -> (r: Result<u64, ScanError>)
    requires
        bytes@.len() <= 19,
    ensures
        all_digits(bytes@) ==> r == Ok::<u64, ScanError>(digits_value(bytes@) as u64),
        !all_digits(bytes@) ==> r == Err::<u64, ScanError>(ScanError::InvalidDigit),
{
    let mut result: u64 = 0;
    let mut i: usize = 0;
    while i < bytes.len()
        invariant
            i <= bytes@.len() <= 19,
            all_digits(bytes@.subrange(0, i as int)),
            result as nat == digits_value(bytes@.subrange(0, i as int)),
            result < pow10(i as nat),
        decreases bytes@.len() - i,
    {
        let b = bytes[i];
        if b < DIGIT_ZERO || b > DIGIT_NINE {
            return Err(ScanError::InvalidDigit);
        }
        proof {
            let next = bytes@.subrange(0, i + 1);
            assert(next.drop_last() =~= bytes@.subrange(0, i as int));
            lemma_pow10_19(i as nat);
        }
        result = result * 10 + (b - DIGIT_ZERO) as u64;
        i = i + 1;
    }
    assert(bytes@.subrange(0, i as int) =~= bytes@);
    Ok(result)
}

proof fn lemma_pow10_19(i: nat)
    requires
        i < 19,
    ensures
        pow10(i) * 10 <= pow10(19),
        pow10(19) == 10000000000000000000,
    decreases 19 - i,
{
    reveal_with_fuel(pow10, 20);
    if i < 18 {
        lemma_pow10_19(i + 1);
    }
}

/// The value, in tenths, of a field `[-]d.d` or `[-]dd.d`; `None` for any
/// other shape.
pub open spec fn value_of(v: Seq<u8>) -> Option<int> {
    let neg = v.len() > 0 && v[0] == MINUS;
    let m = if neg { v.drop_first() } else { v };
    let k = m.len() - 2;
    if (m.len() == 3 || m.len() == 4) && m[k] == DOT && all_digits(m.subrange(0, k))
        && is_digit(m[k + 1]) {
        let mag = digits_value(m.subrange(0, k)) * 10 + (m[k + 1] - DIGIT_ZERO);
        Some(if neg { -mag } else { mag })
    } else {
        None
    }
}

/// A well-formed value field lies within `-99.9 ..= 99.9`.
pub proof fn lemma_value_range(v: Seq<u8>)
    requires
        value_of(v) is Some,
    ensures
        -999 <= value_of(v)->Some_0 <= 999,
{
    let neg = v.len() > 0 && v[0] == MINUS;
    let m = if neg { v.drop_first() } else { v };
    let k = m.len() - 2;
    lemma_digits_value_bound(m.subrange(0, k));
    reveal_with_fuel(pow10, 3);
    assert(is_digit(m[k + 1]));
}

/// Parses a value field `[-]d.d` or `[-]dd.d` into tenths, reading the
/// integer and fractional digit runs with [`parse_int`].
pub fn parse_value(field: &[u8]) -> (r: Option<i64>)
    ensures
        r is Some == value_of(field@) is Some,
        r matches Some(x) ==> x as int == value_of(field@)->Some_0,
        r matches Some(x) ==> -MAX_TENTHS <= x <= MAX_TENTHS,
{
    let len = field.len();
    let neg = len > 0 && field[0] == MINUS;
    let start: usize = if neg { 1 } else { 0 };
    let ghost m = if neg { field@.drop_first() } else { field@ };
    assert(m =~= field@.subrange(start as int, len as int));
    if len - start != 3 && len - start != 4 {
        return None;
    }
    if field[len - 2] != DOT {
        return None;
    }
    let int_part = &field[start..len - 2];
    let frac_part = &field[len - 1..len];
    assert(int_part@ =~= m.subrange(0, m.len() - 2));
    let whole = match parse_int(int_part) {
        Ok(w) => w,
        Err(_) => return None,
    };
    let frac = match parse_int(frac_part) {
        Ok(f) => f,
        Err(_) => {
            assert(!is_digit(frac_part@[0]));
            return None;
        },
    };
    proof {
        assert(is_digit(frac_part@[0]));
        assert(frac_part@.drop_last() =~= Seq::<u8>::empty());
        assert(digits_value(Seq::<u8>::empty()) == 0);
        assert(digits_value(frac_part@) == frac_part@[0] - DIGIT_ZERO);
        lemma_digits_value_bound(int_part@);
        reveal_with_fuel(pow10, 3);
        assert(whole < 100);
        assert(frac < 10);
        let k = m.len() - 2;
        assert(m[k + 1] == frac_part@[0]);
        assert(frac == frac_part@[0] - DIGIT_ZERO);
        assert(value_of(field@) == Some(
            if neg { -(whole * 10 + frac) } else { (whole * 10 + frac) as int },
        ));
    }
    let mag = (whole * 10 + frac) as i64;
    proof {
        lemma_value_range(field@);
    }
    if neg {
        Some(-mag)
    } else {
        Some(mag)
    }
}

/// Decimal digits of `n`, most significant first, without leading zeros.
pub open spec fn digits_of(n: nat) -> Seq<u8>
    decreases n,
{
    if n < 10 {
        seq![(DIGIT_ZERO + n) as u8]
    } else {
        digits_of(n / 10).push((DIGIT_ZERO + n % 10) as u8)
    }
}

/// Text of a value held in tenths: an optional `-`, the integer part, a
/// `.` and exactly one fractional digit.
pub open spec fn fmt_tenths(t: int) -> Seq<u8> {
    let a: nat = if t < 0 { (-t) as nat } else { t as nat };
    let sign: Seq<u8> = if t < 0 { seq![MINUS] } else { Seq::empty() };
    sign + digits_of(a / 10) + seq![DOT, (DIGIT_ZERO + a % 10) as u8]
}

fn push_digits(out: &mut Vec<u8>, n: u64)
    ensures
        final(out)@ == old(out)@ + digits_of(n as nat),
    decreases n,
{
    if n >= 10 {
        push_digits(out, n / 10);
    }
    out.push(DIGIT_ZERO + (n % 10) as u8);
    assert(final(out)@ =~= old(out)@ + digits_of(n as nat));
}

/// Appends the text of a value held in tenths, with one fractional digit.
pub fn push_tenths(out: &mut Vec<u8>, t: i64)
    ensures
        final(out)@ == old(out)@ + fmt_tenths(t as int),
{
    let a: u64 = if t < 0 { (-(t as i128)) as u64 } else { t as u64 };
    if t < 0 {
        out.push(MINUS);
    }
    let ghost before = out@;
    push_digits(out, a / 10);
    out.push(DOT);
    out.push(DIGIT_ZERO + (a % 10) as u8);
    assert(final(out)@ =~= old(out)@ + fmt_tenths(t as int));
}

proof fn lemma_digits_of(n: nat)
    ensures
        all_digits(digits_of(n)),
        digits_value(digits_of(n)) == n,
        n < 10 ==> digits_of(n).len() == 1,
        10 <= n < 100 ==> digits_of(n).len() == 2,
    decreases n,
{
    if n >= 10 {
        lemma_digits_of(n / 10);
        let d = digits_of(n);
        assert(d.drop_last() =~= digits_of(n / 10));
        assert(d.last() - DIGIT_ZERO == n % 10);
        assert(digits_value(d) == digits_value(digits_of(n / 10)) * 10 + n % 10);
        assert(n == (n / 10) * 10 + n % 10);
    } else {
        assert(digits_of(n).drop_last() =~= Seq::<u8>::empty());
        assert(digits_value(Seq::<u8>::empty()) == 0);
    }
}

/// Formatting a value in the record range and reading the text back with the
/// value parser gives the same number of tenths.
pub proof fn lemma_format_round_trip(t: int)
    requires
        -999 <= t <= 999,
    ensures
        value_of(fmt_tenths(t)) == Some(t),
{
    let a: nat = if t < 0 { (-t) as nat } else { t as nat };
    let v = fmt_tenths(t);
    let body = digits_of(a / 10) + seq![DOT, (DIGIT_ZERO + a % 10) as u8];
    lemma_digits_of(a / 10);
    let k = body.len() - 2;
    assert(body.subrange(0, k) =~= digits_of(a / 10));
    if t < 0 {
        assert(v =~= seq![MINUS] + body);
        assert(v.drop_first() =~= body);
    } else {
        assert(v =~= body);
        assert(body[0] != MINUS);
    }
}

} // verus!
