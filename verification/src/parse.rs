//! Parsing of the error-code argument.
//!
//! The argument is read as hexadecimal when it begins with the two-character
//! prefix `0x` (the prefix is stripped first); the hex body is parsed with
//! 64-bit width and then narrowed to 32 bits, so that the full unsigned
//! 32-bit range expressed as hex is accepted (`0xFFFFFFFF` narrows to `-1`).
//! Anything else is parsed as a signed base-10 integer directly. Either way
//! an optional single leading `+` or `-` is accepted, overlong values are
//! rejected as out of range, and any other malformation is a parse error.

use crate::digits::{
    all_digits, digit_val, digit_value, digits_val, is_digit, lemma_digits_val_lower,
    lemma_digits_val_nonneg, lemma_leading_zeros_val, lemma_pow_int_monotone, pow_int,
};
use vstd::prelude::*;

verus! {

/// Why an invocation was rejected: a malformed or missing error-code value,
/// or leftover command-line tokens.
#[derive(Clone, Copy, PartialEq, Eq, Structural, Debug)]
pub enum CliError {
    Parse,
    Argument,
}

impl CliError {
    /// A printable account of the failure.
    pub fn describe(&self) -> (r: String)
        ensures
            *self is Parse ==> r@ == "invalid or missing error code value"@,
            *self is Argument ==> r@ == "unexpected extra arguments"@,
    {
        match self {
            CliError::Parse => String::from_str("invalid or missing error code value"),
            CliError::Argument => String::from_str("unexpected extra arguments"),
        }
    }
}

/// Does the text begin with the literal lowercase prefix `0x`? Only this
/// exact prefix selects hex parsing.
pub open spec fn has_hex_parse_prefix(s: Seq<char>) -> bool {
    s.len() >= 2 && s[0] == '0' && s[1] == 'x'
}

/// Value of a signed digit string in the given base: an optional single `+`
/// or `-`, then at least one digit, and a value within `[min, max]`.
pub open spec fn spec_parse_signed(s: Seq<char>, base: int, min: int, max: int) -> Option<int> {
    let signed = s.len() > 0 && (s[0] == '+' || s[0] == '-');
    let neg = s.len() > 0 && s[0] == '-';
    let ds = if signed { s.skip(1) } else { s };
    if ds.len() > 0 && all_digits(ds, base) {
        let v = if neg { -digits_val(ds, base) } else { digits_val(ds, base) };
        if min <= v && v <= max {
            Some(v)
        } else {
            None
        }
    } else {
        None
    }
}

/// The signed 32-bit value denoted by the error-code argument, if any: hex
/// with a `0x` prefix, parsed 64-bit wide and truncated to 32 bits; decimal
/// otherwise, parsed directly as a signed 32-bit value.
pub open spec fn spec_parse_error_code(s: Seq<char>) -> Option<i32> {
    if has_hex_parse_prefix(s) {
        match spec_parse_signed(s.skip(2), 16, i64::MIN as int, i64::MAX as int) {
            Some(v) => Some((v as i64) as i32),
            None => None,
        }
    } else {
        match spec_parse_signed(s, 10, i32::MIN as int, i32::MAX as int) {
            Some(v) => Some(v as i32),
            None => None,
        }
    }
}

/// A hex input whose digits' value lies within the unsigned 32-bit range
/// parses to the two's-complement signed reinterpretation of that value.
pub proof fn lemma_hex_input_reinterprets(s: Seq<char>)
    requires
        has_hex_parse_prefix(s),
        s.skip(2).len() > 0,
        all_digits(s.skip(2), 16),
        digits_val(s.skip(2), 16) <= u32::MAX as int,
    ensures
        spec_parse_error_code(s) is Some,
        spec_parse_error_code(s)->0 as int == if digits_val(s.skip(2), 16) < 0x8000_0000 {
            digits_val(s.skip(2), 16)
        } else {
            digits_val(s.skip(2), 16) - 0x1_0000_0000
        },
{
    let ds = s.skip(2);
    lemma_digits_val_nonneg(ds, 16);
    let v = digits_val(ds, 16);
    assert(is_digit(ds[0], 16));
    assert(ds[0] != '+' && ds[0] != '-') by {
        assert('+' as u32 == 43);
        assert('-' as u32 == 45);
    }
    assert(spec_parse_signed(ds, 16, i64::MIN as int, i64::MAX as int) == Some(v));
    let w: i64 = v as i64;
    assert(w as int == v);
    assert(0x8000_0000i64 <= w <= 0xFFFF_FFFFi64 ==> (w as i32) as i64 == w - 0x1_0000_0000i64)
        by (bit_vector);
    assert(0i64 <= w < 0x8000_0000i64 ==> (w as i32) as i64 == w) by (bit_vector);
    assert(spec_parse_error_code(s) == Some((w as i32)));
}

/// Unfolded powers of the two bases at the digit-count cutoffs.
proof fn lemma_pow_cutoffs()
    ensures
        pow_int(16, 16) == 0x1_0000_0000_0000_0000,
        pow_int(10, 19) == 10_000_000_000_000_000_000,
{
    reveal_with_fuel(pow_int, 20);
}

/// Magnitude of the digit string that starts at `start`: every remaining
/// character must be a digit of the base, there must be at least one, and the
/// value must not exceed `max_mag`.
#[verifier::loop_isolation(false)]
fn parse_magnitude(s: &str, start: usize, hex: bool, max_mag: u64) -> (r: Option<u64>)
    requires
        start <= s@.len(),
        max_mag <= 0x8000_0000_0000_0000u64,
    ensures
        ({
            let base = if hex { 16int } else { 10int };
            let ds = s@.skip(start as int);
            match r {
                Some(m) => ds.len() > 0 && all_digits(ds, base) && m == digits_val(ds, base)
                    && m <= max_mag,
                None => !(ds.len() > 0 && all_digits(ds, base) && digits_val(ds, base)
                    <= max_mag as int),
            }
        }),
{
    let ghost base: int = if hex { 16int } else { 10int };
    let ghost ds = s@.skip(start as int);
    let n: usize = s.unicode_len();
    if start >= n {
        return None;
    }

    // Skip leading zero digits; they do not change the value.
    let mut i: usize = start;
    while i < n && s.get_char(i) == '0'
        invariant
            start <= i <= n,
            n == s@.len(),
            forall|t: int| start <= t < i ==> s@[t] == '0',
        decreases n - i,
    {
        i = i + 1;
    }
    proof {
        assert(forall|t: int| 0 <= t < i - start ==> ds[t] == '0');
        assert(forall|t: int| 0 <= t < i - start ==> digit_val(#[trigger] ds[t]) == 0);
        assert(forall|t: int| 0 <= t < i - start ==> is_digit(#[trigger] ds[t], base));
        lemma_leading_zeros_val(ds, i - start, base);
        assert(ds.skip(i - start) =~= s@.skip(i as int));
    }
    let ghost tail = s@.skip(i as int);
    if i == n {
        proof {
            assert(tail =~= Seq::<char>::empty());
            assert(digits_val(ds, base) == 0);
            assert(all_digits(ds, base));
        }
        return Some(0);
    }

    // Every remaining character must be a digit of the base.
    let mut j: usize = i;
    while j < n
        invariant
            start <= i <= j <= n,
            n == s@.len(),
            hex ==> base == 16,
            !hex ==> base == 10,
            forall|t: int| i <= t < j ==> is_digit(#[trigger] s@[t], base),
        decreases n - j,
    {
        let c = s.get_char(j);
        if digit_value(c, hex).is_none() {
            proof {
                assert(ds.len() == n - start);
                assert(0 <= j - start < ds.len());
                assert(ds[j - start] == s@[j as int]);
                assert(!is_digit(ds[j - start], base));
            }
            return None;
        }
        j = j + 1;
    }
    proof {
        assert(forall|t: int| start <= t < i ==> is_digit(#[trigger] s@[t], base));
        assert(forall|t: int| 0 <= t < ds.len() ==> is_digit(#[trigger] ds[t], base));
        assert(all_digits(ds, base));
        assert(forall|t: int| 0 <= t < tail.len() ==> is_digit(#[trigger] tail[t], base));
        assert(all_digits(tail, base));
    }

    // With the leading zeros gone, the first digit is nonzero, so more digits
    // than the cutoff means the value cannot fit below `max_mag`.
    let limit: usize = if hex { 16 } else { 19 };
    if n - i > limit {
        proof {
            assert(tail[0] == s@[i as int]);
            assert(s@[i as int] != '0');
            assert(is_digit(tail[0], base));
            assert(digit_val(tail[0]) >= 1) by {
                assert('0' as u32 == 48);
                assert(tail[0] as u32 != 48);
            }
            lemma_digits_val_lower(tail, base);
            lemma_pow_int_monotone(base, limit as nat, (tail.len() - 1) as nat);
            lemma_pow_cutoffs();
            assert(digits_val(tail, base) >= pow_int(base, limit as nat));
            assert(digits_val(ds, base) > max_mag as int);
        }
        return None;
    }

    // Accumulate at most `limit` digits; the value stays within `u64`.
    let base_num: u64 = if hex { 16 } else { 10 };
    let mut acc: u64 = 0;
    let mut t: usize = i;
    while t < n
        invariant
            start <= i <= t <= n,
            n == s@.len(),
            n - i <= limit,
            hex ==> base == 16 && limit == 16 && base_num == 16,
            !hex ==> base == 10 && limit == 19 && base_num == 10,
            tail == s@.skip(i as int),
            forall|u: int| 0 <= u < tail.len() ==> is_digit(#[trigger] tail[u], base),
            acc == digits_val(s@.subrange(i as int, t as int), base),
            acc < pow_int(base, (t - i) as nat),
        decreases n - t,
    {
        let c = s.get_char(t);
        let d: u64 = match digit_value(c, hex) {
            Some(d) => d,
            None => {
                proof {
                    assert(is_digit(tail[t - i], base));
                    assert(false);
                }
                return None;
            },
        };
        proof {
            let done = s@.subrange(i as int, t as int);
            let next = s@.subrange(i as int, t + 1 as int);
            assert(next.drop_last() =~= done);
            assert(next.last() == s@[t as int]);
            assert(digits_val(next, base) == digits_val(done, base) * base + digit_val(s@[t as int]));
            lemma_pow_cutoffs();
            lemma_pow_int_monotone(base, (t + 1 - i) as nat, limit as nat);
            assert(acc * base + d < pow_int(base, (t + 1 - i) as nat)) by (nonlinear_arith)
                requires
                    acc < pow_int(base, (t - i) as nat),
                    d < base,
                    base >= 2,
                    pow_int(base, (t + 1 - i) as nat) == base * pow_int(base, (t - i) as nat),
            ;
            assert(acc * base + d <= 0xFFFF_FFFF_FFFF_FFFFu64);
        }
        acc = acc * base_num + d;
        t = t + 1;
    }
    proof {
        assert(s@.subrange(i as int, n as int) =~= tail);
        assert(acc == digits_val(tail, base));
        assert(digits_val(ds, base) == acc);
    }
    if acc <= max_mag {
        Some(acc)
    } else {
        None
    }
}

/// Signed value of the text from `start` on, in the chosen base, within
/// `[min, max]`.
fn parse_signed(s: &str, start: usize, hex: bool, min: i64, max: i64) -> (r: Option<i64>)
    requires
        start <= s@.len(),
        min <= 0 <= max,
    ensures
        ({
            let base = if hex { 16int } else { 10int };
            let p = spec_parse_signed(s@.skip(start as int), base, min as int, max as int);
            match r {
                Some(v) => p == Some(v as int),
                None => p is None,
            }
        }),
{
    let ghost base: int = if hex { 16int } else { 10int };
    let ghost whole = s@.skip(start as int);
    let n: usize = s.unicode_len();
    if start >= n {
        proof {
            assert(whole =~= Seq::<char>::empty());
        }
        return None;
    }
    let c0 = s.get_char(start);
    let neg = c0 == '-';
    let signed = neg || c0 == '+';
    let dstart: usize = if signed { start + 1 } else { start };
    proof {
        assert(whole[0] == c0);
        if signed {
            assert(whole.skip(1) =~= s@.skip(dstart as int));
        }
    }
    let ghost ds = s@.skip(dstart as int);
    let max_mag: u64 = if neg {
        if min == i64::MIN {
            0x8000_0000_0000_0000u64
        } else {
            (-min) as u64
        }
    } else {
        max as u64
    };
    match parse_magnitude(s, dstart, hex, max_mag) {
        Some(m) => {
            proof {
                lemma_digits_val_nonneg(ds, base);
            }
            if neg {
                if m == 0x8000_0000_0000_0000u64 {
                    Some(i64::MIN)
                } else {
                    Some(-(m as i64))
                }
            } else {
                Some(m as i64)
            }
        },
        None => {
            proof {
                if ds.len() > 0 && all_digits(ds, base) {
                    lemma_digits_val_nonneg(ds, base);
                }
            }
            None
        },
    }
}

/// Parse the error-code argument: hex when it carries the lowercase `0x`
/// prefix (64-bit wide, then truncated to 32 bits), decimal otherwise.
pub fn parse_error_code(s: &str) -> (r: Result<i32, CliError>)
    ensures
        match spec_parse_error_code(s@) {
            Some(v) => r == Ok::<i32, CliError>(v),
            None => r == Err::<i32, CliError>(CliError::Parse),
        },
{
    let n: usize = s.unicode_len();
    let hex = n >= 2 && s.get_char(0) == '0' && s.get_char(1) == 'x';
    if hex {
        match parse_signed(s, 2, true, i64::MIN, i64::MAX) {
            Some(v) => Ok(#[verifier::truncate] (v as i32)),
            None => Err(CliError::Parse),
        }
    } else {
        proof {
            assert(!has_hex_parse_prefix(s@));
        }
        match parse_signed(s, 0, false, -0x8000_0000i64, 0x7FFF_FFFFi64) {
            Some(v) => {
                proof {
                    assert(s@.skip(0) =~= s@);
                }
                Ok(v as i32)
            },
            None => {
                proof {
                    assert(s@.skip(0) =~= s@);
                }
                Err(CliError::Parse)
            },
        }
    }
}

} // verus!
