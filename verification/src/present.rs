//! Presentation of the result line.
//!
//! The line echoes the raw input, annotates it with the numeric value in the
//! other base for readability — hex input is annotated in plain signed
//! decimal, decimal input in zero-padded 8-hex-digit form with a `0x` prefix
//! — and ends with the resolved message. Which base the annotation uses is
//! decided by the raw text's first two characters, hex prefix in either case.

use crate::digits::{
    fixed_digits, lemma_fixed_digits_val, lemma_nat_digits_shape, nat_digits, pow_int,
};
use vstd::prelude::*;

verus! {

/// Does the raw input text display as hex (its first two characters are the
/// hex prefix in either case)?
pub open spec fn displays_as_hex(raw: Seq<char>) -> bool {
    raw.len() >= 2 && raw[0] == '0' && (raw[1] == 'x' || raw[1] == 'X')
}

/// The shortest signed decimal rendering of a value.
pub open spec fn spec_dec_i32(v: int) -> Seq<char> {
    if v < 0 {
        seq!['-'] + nat_digits(-v, 10)
    } else {
        nat_digits(v, 10)
    }
}

/// The zero-padded 8-hex-digit lowercase rendering of an unsigned 32-bit
/// value, with the `0x` prefix.
pub open spec fn spec_hex32(v: int) -> Seq<char> {
    seq!['0', 'x'] + fixed_digits(v, 8, 16)
}

/// The printed result line: raw input, the annotation in the other base, and
/// the resolved message. A hex input is annotated with the normalized code in
/// decimal; any other input is annotated with its own (original) value in
/// zero-padded hex.
pub open spec fn spec_output_line(
    raw: Seq<char>,
    original: i32,
    normalized: i32,
    msg: Seq<char>,
) -> Seq<char> {
    if displays_as_hex(raw) {
        raw + " ("@ + spec_dec_i32(normalized as int) + "): "@ + msg
    } else {
        raw + " ("@ + spec_hex32((original as u32) as int) + "): "@ + msg
    }
}

/// The one-character string for a digit value (lowercase for 10 to 15).
fn digit_str(d: u64) -> (r: &'static str)
    requires
        d < 16,
    ensures
        r@ == seq![crate::digits::digit_char(d as int)],
{
    proof {
        reveal_strlit("0");
        reveal_strlit("1");
        reveal_strlit("2");
        reveal_strlit("3");
        reveal_strlit("4");
        reveal_strlit("5");
        reveal_strlit("6");
        reveal_strlit("7");
        reveal_strlit("8");
        reveal_strlit("9");
        reveal_strlit("a");
        reveal_strlit("b");
        reveal_strlit("c");
        reveal_strlit("d");
        reveal_strlit("e");
        reveal_strlit("f");
    }
    let r = if d == 0 { "0" }
    else if d == 1 { "1" }
    else if d == 2 { "2" }
    else if d == 3 { "3" }
    else if d == 4 { "4" }
    else if d == 5 { "5" }
    else if d == 6 { "6" }
    else if d == 7 { "7" }
    else if d == 8 { "8" }
    else if d == 9 { "9" }
    else if d == 10 { "a" }
    else if d == 11 { "b" }
    else if d == 12 { "c" }
    else if d == 13 { "d" }
    else if d == 14 { "e" }
    else { "f" };
    proof {
        assert(r@ =~= seq![crate::digits::digit_char(d as int)]);
    }
    r
}

/// The decimal digits of `m`, shortest form.
fn dec_digits_string(m: u32) -> (r: String)
    ensures
        r@ == nat_digits(m as int, 10),
    decreases m,
{
    if m < 10 {
        String::from_str(digit_str(m as u64))
    } else {
        let mut s = dec_digits_string(m / 10);
        s.append(digit_str((m % 10) as u64));
        proof {
            assert((m / 10) as int == m as int / 10) by (nonlinear_arith);
            assert((m % 10) as int == m as int % 10) by (nonlinear_arith);
        }
        s
    }
}

/// Render a signed 32-bit value in plain decimal.
pub fn render_dec_i32(v: i32) -> (r: String)
    ensures
        r@ == spec_dec_i32(v as int),
{
    if v >= 0 {
        dec_digits_string(v as u32)
    } else {
        let m: u32 = (-(v as i64)) as u32;
        proof {
            reveal_strlit("-");
        }
        let mut s = String::from_str("-");
        let digits = dec_digits_string(m);
        s.append(digits.as_str());
        proof {
            assert("-"@ =~= seq!['-']);
        }
        s
    }
}

/// The exactly-8 hex digits of the low bits of `v`, most significant first.
fn hex_fixed_string(v: u32, k: usize) -> (r: String)
    requires
        k <= 8,
        v < pow_int(16, k as nat),
    ensures
        r@ == fixed_digits(v as int, k as nat, 16),
    decreases k,
{
    if k == 0 {
        String::new()
    } else {
        let mut s = hex_fixed_string(v / 16, k - 1);
        s.append(digit_str((v % 16) as u64));
        proof {
            assert((v / 16) as int == v as int / 16) by (nonlinear_arith);
            assert((v % 16) as int == v as int % 16) by (nonlinear_arith);
            assert(v as int / 16 < pow_int(16, (k - 1) as nat)) by (nonlinear_arith)
                requires
                    (v as int) < pow_int(16, k as nat),
                    pow_int(16, k as nat) == 16 * pow_int(16, (k - 1) as nat),
                    v >= 0,
            ;
        }
        s
    }
}

/// Render a signed 32-bit value as zero-padded 8-digit lowercase hex with the
/// `0x` prefix, reinterpreting the bits as unsigned.
pub fn render_hex32(v: i32) -> (r: String)
    ensures
        r@ == spec_hex32((v as u32) as int),
{
    let u: u32 = #[verifier::truncate] (v as u32);
    proof {
        reveal_strlit("0x");
        assert("0x"@ =~= seq!['0', 'x']);
        lemma_pow_values_u32();
    }
    let mut s = String::from_str("0x");
    let digits = hex_fixed_string(u, 8);
    s.append(digits.as_str());
    s
}

/// `16^8` covers the unsigned 32-bit range.
proof fn lemma_pow_values_u32()
    ensures
        pow_int(16, 8) == 0x1_0000_0000,
{
    reveal_with_fuel(pow_int, 9);
}

/// The hex annotation of a value, fed back as input, parses to that same
/// value: rendering and parsing are exact inverses over the whole signed
/// 32-bit range.
pub proof fn lemma_hex_annotation_round_trip(v: i32)
    ensures
        crate::parse::spec_parse_error_code(spec_hex32((v as u32) as int)) == Some::<i32>(v),
{
    let u = (v as u32) as int;
    lemma_pow_values_u32();
    lemma_fixed_digits_val(u, 8, 16);
    let digits = fixed_digits(u, 8, 16);
    let s = spec_hex32(u);
    assert(s.skip(2) =~= digits);
    assert(s[0] == '0' && s[1] == 'x');
    assert(crate::parse::has_hex_parse_prefix(s));
    crate::parse::lemma_hex_input_reinterprets(s);
    assert(v < 0 ==> (v as u32) as i64 == v as i64 + 0x1_0000_0000i64) by (bit_vector);
    assert(v >= 0 ==> (v as u32) as i64 == v as i64) by (bit_vector);
    let w = crate::parse::spec_parse_error_code(s)->0;
    assert(w as int == v as int);
}

/// The plain decimal rendering of a value, fed back as input, parses to that
/// same value: decimal re-display is round-trip consistent too.
pub proof fn lemma_dec_render_round_trip(v: i32)
    ensures
        crate::parse::spec_parse_error_code(spec_dec_i32(v as int)) == Some::<i32>(v),
{
    let s = spec_dec_i32(v as int);
    if v >= 0 {
        lemma_nat_digits_shape(v as int, 10);
        let ds = nat_digits(v as int, 10);
        assert(s == ds);
        assert(crate::digits::is_digit(ds[0], 10));
        assert(ds[0] != '+' && ds[0] != '-' && ds[0] != 'x') by {
            assert('+' as u32 == 43);
            assert('-' as u32 == 45);
            assert('x' as u32 == 120);
        }
        if s.len() >= 2 {
            assert(crate::digits::is_digit(ds[1], 10));
            assert(ds[1] != 'x') by {
                assert('x' as u32 == 120);
            }
        }
        assert(!crate::parse::has_hex_parse_prefix(s));
        assert(crate::parse::spec_parse_signed(s, 10, i32::MIN as int, i32::MAX as int)
            == Some(v as int));
    } else {
        let m = -(v as int);
        lemma_nat_digits_shape(m, 10);
        let ds = nat_digits(m, 10);
        assert(s == seq!['-'] + ds);
        assert(s[0] == '-');
        assert(!crate::parse::has_hex_parse_prefix(s)) by {
            assert('-' as u32 == 45);
            assert('0' as u32 == 48);
        }
        assert(s.skip(1) =~= ds);
        assert(crate::parse::spec_parse_signed(s, 10, i32::MIN as int, i32::MAX as int)
            == Some(v as int));
    }
}

/// A decimal input that parses to `v` is presented with the zero-padded
/// 8-hex-digit annotation of `v` itself (not of the normalized code), and
/// that annotation, fed back as input, parses to `v` again.
pub proof fn lemma_decimal_input_hex_annotation(
    raw: Seq<char>,
    v: i32,
    normalized: i32,
    msg: Seq<char>,
)
    requires
        !displays_as_hex(raw),
        crate::parse::spec_parse_error_code(raw) == Some::<i32>(v),
    ensures
        spec_output_line(raw, v, normalized, msg) == raw + " ("@ + spec_hex32((v as u32) as int)
            + "): "@ + msg,
        crate::parse::spec_parse_error_code(spec_hex32((v as u32) as int)) == Some::<i32>(v),
{
    lemma_hex_annotation_round_trip(v);
}

/// Build the printed result line from the raw input, the original and the
/// normalized code, and the resolved message.
pub fn format_output_line(raw: &str, original: i32, normalized: i32, msg: &str) -> (r: String)
    ensures
        r@ == spec_output_line(raw@, original, normalized, msg@),
{
    let n: usize = raw.unicode_len();
    let hex_display = n >= 2 && raw.get_char(0) == '0' && {
        let c = raw.get_char(1);
        c == 'x' || c == 'X'
    };
    let mut out = String::from_str(raw);
    out.append(" (");
    if hex_display {
        let dec = render_dec_i32(normalized);
        out.append(dec.as_str());
    } else {
        let hex = render_hex32(original);
        out.append(hex.as_str());
    }
    out.append("): ");
    out.append(msg);
    out
}

} // verus!
