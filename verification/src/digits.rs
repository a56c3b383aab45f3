//! Digit strings and their numeric values, in base 10 and base 16.
//!
//! Both directions of the pipeline rest on these definitions: parsing reads a
//! digit string into its value, and presentation renders a value back into a
//! digit string. The lemmas here bound a digit string's value by powers of the
//! base, show that leading zeros do not change the value, and show that
//! rendering is the exact inverse of evaluation.

use vstd::prelude::*;

verus! {

/// Numeric value of one digit character, or 16 for a character that is no
/// digit in any supported base.
pub open spec fn digit_val(c: char) -> int {
    if '0' as u32 <= c as u32 && c as u32 <= '9' as u32 {
        c as u32 - '0' as u32
    } else if 'a' as u32 <= c as u32 && c as u32 <= 'f' as u32 {
        10 + (c as u32 - 'a' as u32)
    } else if 'A' as u32 <= c as u32 && c as u32 <= 'F' as u32 {
        10 + (c as u32 - 'A' as u32)
    } else {
        16
    }
}

/// Is `c` a digit of the given base (10 or 16)?
pub open spec fn is_digit(c: char, base: int) -> bool {
    digit_val(c) < base
}

/// Every character of `s` is a digit of the given base.
pub open spec fn all_digits(s: Seq<char>, base: int) -> bool {
    forall|i: int| 0 <= i < s.len() ==> is_digit(#[trigger] s[i], base)
}

/// Value of a digit string, most significant digit first (Horner's rule).
pub open spec fn digits_val(s: Seq<char>, base: int) -> int
    decreases s.len(),
{
    if s.len() == 0 {
        0
    } else {
        digits_val(s.drop_last(), base) * base + digit_val(s.last())
    }
}

/// `base` raised to the `k`-th power.
pub open spec fn pow_int(base: int, k: nat) -> int
    decreases k,
{
    if k == 0 {
        1
    } else {
        base * pow_int(base, (k - 1) as nat)
    }
}

/// The canonical character for a digit value (lowercase for 10 to 15).
pub open spec fn digit_char(d: int) -> char {
    if d == 0 { '0' }
    else if d == 1 { '1' }
    else if d == 2 { '2' }
    else if d == 3 { '3' }
    else if d == 4 { '4' }
    else if d == 5 { '5' }
    else if d == 6 { '6' }
    else if d == 7 { '7' }
    else if d == 8 { '8' }
    else if d == 9 { '9' }
    else if d == 10 { 'a' }
    else if d == 11 { 'b' }
    else if d == 12 { 'c' }
    else if d == 13 { 'd' }
    else if d == 14 { 'e' }
    else { 'f' }
}

/// Exactly `k` digit characters for `v`, most significant first, with leading
/// zeros where `v` is short of `k` digits.
pub open spec fn fixed_digits(v: int, k: nat, base: int) -> Seq<char>
    decreases k,
{
    if k == 0 {
        Seq::empty()
    } else {
        fixed_digits(v / base, (k - 1) as nat, base) + seq![digit_char(v % base)]
    }
}

/// The shortest digit string for a nonnegative value (just "0" for zero).
pub open spec fn nat_digits(v: int, base: int) -> Seq<char>
    decreases v,
    via nat_digits_decreases
{
    if v <= 0 || base <= 1 {
        seq!['0']
    } else if v < base {
        seq![digit_char(v)]
    } else {
        nat_digits(v / base, base) + seq![digit_char(v % base)]
    }
}

#[via_fn]
proof fn nat_digits_decreases(v: int, base: int) {
    if !(v <= 0 || base <= 1) && !(v < base) {
        assert(0 <= v / base < v) by (nonlinear_arith)
            requires v >= base >= 2;
    }
}

/// A digit value maps to its character and back.
pub proof fn lemma_digit_char_val(d: int)
    requires
        0 <= d < 16,
    ensures
        digit_val(digit_char(d)) == d,
        d < 10 ==> is_digit(digit_char(d), 10),
        is_digit(digit_char(d), 16),
{
}

/// A digit string's value is nonnegative.
pub proof fn lemma_digits_val_nonneg(s: Seq<char>, base: int)
    requires
        base >= 2,
    ensures
        digits_val(s, base) >= 0,
    decreases s.len(),
{
    if s.len() > 0 {
        lemma_digits_val_nonneg(s.drop_last(), base);
        assert(digits_val(s.drop_last(), base) * base >= 0) by (nonlinear_arith)
            requires digits_val(s.drop_last(), base) >= 0 && base >= 2;
        assert(digit_val(s.last()) >= 0);
    }
}

/// A digit string whose first digit is nonzero has a value of at least
/// `base^(len-1)`.
pub proof fn lemma_digits_val_lower(s: Seq<char>, base: int)
    requires
        base >= 2,
        all_digits(s, base),
        s.len() > 0,
        digit_val(s[0]) >= 1,
    ensures
        digits_val(s, base) >= pow_int(base, (s.len() - 1) as nat),
    decreases s.len(),
{
    if s.len() == 1 {
        assert(digits_val(s, base) == digits_val(s.drop_last(), base) * base + digit_val(s.last()));
        assert(s.drop_last().len() == 0);
        assert(s.last() == s[0]);
    } else {
        let p = s.drop_last();
        assert(all_digits(p, base));
        assert(p[0] == s[0]);
        lemma_digits_val_lower(p, base);
        lemma_pow_int_pos(base, (p.len() - 1) as nat);
        assert(digit_val(s.last()) >= 0);
        assert(digits_val(p, base) * base >= pow_int(base, (p.len() - 1) as nat) * base)
            by (nonlinear_arith)
            requires
                digits_val(p, base) >= pow_int(base, (p.len() - 1) as nat),
                base >= 2,
                pow_int(base, (p.len() - 1) as nat) >= 0;
        assert(pow_int(base, (s.len() - 1) as nat) == base * pow_int(base, (p.len() - 1) as nat));
    }
}

/// Powers of a positive base are positive.
pub proof fn lemma_pow_int_pos(base: int, k: nat)
    requires
        base >= 1,
    ensures
        pow_int(base, k) >= 1,
    decreases k,
{
    if k > 0 {
        lemma_pow_int_pos(base, (k - 1) as nat);
        assert(base * pow_int(base, (k - 1) as nat) >= 1) by (nonlinear_arith)
            requires base >= 1 && pow_int(base, (k - 1) as nat) >= 1;
    }
}

/// Powers grow with the exponent.
pub proof fn lemma_pow_int_monotone(base: int, j: nat, k: nat)
    requires
        base >= 2,
        j <= k,
    ensures
        pow_int(base, j) <= pow_int(base, k),
    decreases k,
{
    if j < k {
        lemma_pow_int_monotone(base, j, (k - 1) as nat);
        lemma_pow_int_pos(base, (k - 1) as nat);
        assert(base * pow_int(base, (k - 1) as nat) >= pow_int(base, (k - 1) as nat))
            by (nonlinear_arith)
            requires base >= 2 && pow_int(base, (k - 1) as nat) >= 1;
    }
}

/// A string of zero digits has value zero.
pub proof fn lemma_all_zero_digits_val(s: Seq<char>, base: int)
    requires
        forall|i: int| 0 <= i < s.len() ==> digit_val(#[trigger] s[i]) == 0,
    ensures
        digits_val(s, base) == 0,
    decreases s.len(),
{
    if s.len() > 0 {
        lemma_all_zero_digits_val(s.drop_last(), base);
    }
}

/// Leading zero digits do not change a digit string's value.
pub proof fn lemma_leading_zeros_val(s: Seq<char>, z: int, base: int)
    requires
        0 <= z <= s.len(),
        forall|i: int| 0 <= i < z ==> digit_val(#[trigger] s[i]) == 0,
    ensures
        digits_val(s, base) == digits_val(s.skip(z), base),
    decreases s.len(),
{
    if s.len() == z {
        assert(s.skip(z) =~= Seq::empty());
        lemma_all_zero_digits_val(s, base);
    } else {
        let p = s.drop_last();
        lemma_leading_zeros_val(p, z, base);
        assert(s.skip(z).drop_last() =~= p.skip(z));
        assert(s.skip(z).last() == s.last());
    }
}

/// Evaluating the fixed-width rendering of `v` gives back `v`, and every
/// character of the rendering is a digit of the base.
pub proof fn lemma_fixed_digits_val(v: int, k: nat, base: int)
    requires
        2 <= base <= 16,
        0 <= v < pow_int(base, k),
    ensures
        fixed_digits(v, k, base).len() == k,
        all_digits(fixed_digits(v, k, base), base),
        digits_val(fixed_digits(v, k, base), base) == v,
    decreases k,
{
    if k == 0 {
    } else {
        let q = v / base;
        let m = v % base;
        assert(0 <= m < base && v == q * base + m && 0 <= q) by (nonlinear_arith)
            requires base >= 2 && v >= 0 && q == v / base && m == v % base;
        assert(q < pow_int(base, (k - 1) as nat)) by (nonlinear_arith)
            requires
                base >= 2,
                v < pow_int(base, k),
                pow_int(base, k) == base * pow_int(base, (k - 1) as nat),
                q == v / base,
                v >= 0;
        lemma_fixed_digits_val(q, (k - 1) as nat, base);
        lemma_digit_char_val(m);
        let inner = fixed_digits(q, (k - 1) as nat, base);
        let s = fixed_digits(v, k, base);
        assert(s == inner + seq![digit_char(m)]);
        assert(s.drop_last() =~= inner);
        assert(s.last() == digit_char(m));
        assert(digits_val(s, base) == digits_val(inner, base) * base + digit_val(digit_char(m)));
        assert(forall|i: int| 0 <= i < s.len() ==> is_digit(#[trigger] s[i], base)) by {
            assert(forall|i: int| 0 <= i < inner.len() ==> s[i] == #[trigger] inner[i]);
            assert(s[s.len() - 1] == digit_char(m));
        }
    }
}

/// Every character of the shortest rendering of `v` is a digit of the base,
/// and the first is nonzero when `v` is.
pub proof fn lemma_nat_digits_shape(v: int, base: int)
    requires
        2 <= base <= 16,
        v >= 0,
    ensures
        nat_digits(v, base).len() >= 1,
        all_digits(nat_digits(v, base), base),
        digits_val(nat_digits(v, base), base) == v,
    decreases v,
{
    if v == 0 {
        let s = nat_digits(v, base);
        assert(s == seq!['0']);
        assert(s.drop_last() =~= Seq::<char>::empty());
        assert(s.last() == '0');
        assert(digit_val('0') == 0);
        assert(digits_val(s, base) == digits_val(s.drop_last(), base) * base + digit_val(s.last()));
        assert(forall|i: int| 0 <= i < s.len() ==> #[trigger] s[i] == '0');
    } else if v < base {
        let s = nat_digits(v, base);
        lemma_digit_char_val(v);
        assert(s == seq![digit_char(v)]);
        assert(s.drop_last() =~= Seq::<char>::empty());
        assert(s.last() == digit_char(v));
        assert(digits_val(s, base) == digits_val(s.drop_last(), base) * base + digit_val(s.last()));
        assert(forall|i: int| 0 <= i < s.len() ==> #[trigger] s[i] == digit_char(v));
    } else {
        let q = v / base;
        let m = v % base;
        assert(0 <= m < base && v == q * base + m && 1 <= q < v) by (nonlinear_arith)
            requires 2 <= base <= v && q == v / base && m == v % base;
        lemma_nat_digits_shape(q, base);
        lemma_digit_char_val(m);
        let inner = nat_digits(q, base);
        let s = nat_digits(v, base);
        assert(s == inner + seq![digit_char(m)]);
        assert(s.drop_last() =~= inner);
        assert(s.last() == digit_char(m));
        assert(digits_val(s, base) == digits_val(inner, base) * base + digit_val(digit_char(m)));
        assert(forall|i: int| 0 <= i < s.len() ==> is_digit(#[trigger] s[i], base)) by {
            assert(forall|i: int| 0 <= i < inner.len() ==> s[i] == #[trigger] inner[i]);
            assert(s[s.len() - 1] == digit_char(m));
        }
    }
}

/// Numeric value of one digit character in the chosen base, if it is one.
pub fn digit_value(c: char, hex: bool) -> (r: Option<u64>)
    ensures
        match r {
            Some(d) => is_digit(c, if hex { 16int } else { 10int }) && d == digit_val(c) && d < 16,
            None => !is_digit(c, if hex { 16int } else { 10int }),
        },
{
    let u: u32 = c as u32;
    if u >= '0' as u32 && u <= '9' as u32 {
        Some((u - '0' as u32) as u64)
    } else if hex && u >= 'a' as u32 && u <= 'f' as u32 {
        Some((10 + (u - 'a' as u32)) as u64)
    } else if hex && u >= 'A' as u32 && u <= 'F' as u32 {
        Some((10 + (u - 'A' as u32)) as u64)
    } else {
        None
    }
}

} // verus!
