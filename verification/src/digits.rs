//! Decimal digit strings: their values, bounds, and a fixed-width encoding.
//!
//! Shared by the amount parser and the bundle codec. `digits_val` is the
//! value a digit string denotes; `fixed_digits` is the canonical `w`-digit,
//! zero-padded rendering of a number below `10^w`.
use vstd::prelude::*;

verus! {

/// Whether a character is a decimal digit.
pub open spec fn is_digit_char(c: char) -> bool {
    c == '0' || c == '1' || c == '2' || c == '3' || c == '4' || c == '5' || c == '6' || c == '7'
        || c == '8' || c == '9'
}

/// The value of a digit character; ten for anything else.
pub open spec fn digit_char_val(c: char) -> nat {
    if c == '0' {
        0
    } else if c == '1' {
        1
    } else if c == '2' {
        2
    } else if c == '3' {
        3
    } else if c == '4' {
        4
    } else if c == '5' {
        5
    } else if c == '6' {
        6
    } else if c == '7' {
        7
    } else if c == '8' {
        8
    } else if c == '9' {
        9
    } else {
        10
    }
}

/// The digit character of a value below ten.
pub open spec fn char_of_digit(d: nat) -> char {
    if d == 0 {
        '0'
    } else if d == 1 {
        '1'
    } else if d == 2 {
        '2'
    } else if d == 3 {
        '3'
    } else if d == 4 {
        '4'
    } else if d == 5 {
        '5'
    } else if d == 6 {
        '6'
    } else if d == 7 {
        '7'
    } else if d == 8 {
        '8'
    } else {
        '9'
    }
}

/// Whether every character of `s` is a decimal digit.
pub open spec fn all_digits(s: Seq<char>) -> bool {
    forall|i: int| 0 <= i < s.len() ==> is_digit_char(#[trigger] s[i])
}

/// The number a digit string denotes, most significant digit first.
pub open spec fn digits_val(s: Seq<char>) -> nat
    decreases s.len(),
{
    if s.len() == 0 {
        0
    } else {
        digits_val(s.drop_last()) * 10 + digit_char_val(s.last())
    }
}

/// Ten to the `e`.
pub open spec fn pow10(e: nat) -> nat
    decreases e,
{
    if e == 0 {
        1
    } else {
        10 * pow10((e - 1) as nat)
    }
}

/// The canonical `w`-digit, zero-padded decimal rendering of `n % 10^w`.
pub open spec fn fixed_digits(w: nat, n: nat) -> Seq<char>
    decreases w,
{
    if w == 0 {
        Seq::empty()
    } else {
        fixed_digits((w - 1) as nat, n / 10).push(char_of_digit(n % 10))
    }
}

pub proof fn lemma_pow10_pos(e: nat)
    ensures
        pow10(e) >= 1,
    decreases e,
{
    if e > 0 {
        lemma_pow10_pos((e - 1) as nat);
    }
}

pub proof fn lemma_pow10_mono(a: nat, b: nat)
    requires
        a <= b,
    ensures
        pow10(a) <= pow10(b),
    decreases b,
{
    if a < b {
        lemma_pow10_mono(a, (b - 1) as nat);
        lemma_pow10_pos((b - 1) as nat);
    }
}

pub proof fn lemma_fixed_digits_shape(w: nat, n: nat)
    ensures
        fixed_digits(w, n).len() == w,
        all_digits(fixed_digits(w, n)),
    decreases w,
{
    if w > 0 {
        lemma_fixed_digits_shape((w - 1) as nat, n / 10);
        assert forall|i: int| 0 <= i < w implies is_digit_char(#[trigger] fixed_digits(w, n)[i]) by {
            if i < w - 1 {
                assert(fixed_digits(w, n)[i] == fixed_digits((w - 1) as nat, n / 10)[i]);
            }
        }
    }
}

/// Rendering a number below `10^w` in `w` digits and reading it back is the
/// identity.
pub proof fn lemma_fixed_digits_val(w: nat, n: nat)
    requires
        n < pow10(w),
    ensures
        digits_val(fixed_digits(w, n)) == n,
    decreases w,
{
    if w == 0 {
        assert(n == 0);
    } else {
        let q = n / 10;
        let r = n % 10;
        assert(q < pow10((w - 1) as nat) && n == q * 10 + r) by {
            vstd::arithmetic::div_mod::lemma_fundamental_div_mod(n as int, 10);
            assert(pow10(w) == 10 * pow10((w - 1) as nat));
        };
        lemma_fixed_digits_val((w - 1) as nat, q);
        let s = fixed_digits(w, n);
        assert(s.drop_last() =~= fixed_digits((w - 1) as nat, q));
        assert(digit_char_val(char_of_digit(r)) == r);
    }
}

/// Splitting a digit string splits its value at the corresponding power of
/// ten.
pub proof fn lemma_digits_val_concat(a: Seq<char>, b: Seq<char>)
    ensures
        digits_val(a + b) == digits_val(a) * pow10(b.len()) + digits_val(b),
    decreases b.len(),
{
    if b.len() == 0 {
        assert(a + b =~= a);
        assert(digits_val(a) * pow10(0) == digits_val(a) * 1);
    } else {
        let b0 = b.drop_last();
        lemma_digits_val_concat(a, b0);
        assert((a + b).drop_last() =~= a + b0);
        assert((a + b).last() == b.last());
        assert(pow10(b.len()) == 10 * pow10(b0.len()));
        let va = digits_val(a);
        let p0 = pow10(b0.len());
        assert(digits_val(a + b) == (va * p0 + digits_val(b0)) * 10 + digit_char_val(b.last()));
        assert((va * p0 + digits_val(b0)) * 10 == va * (10 * p0) + digits_val(b0) * 10)
            by (nonlinear_arith);
        assert(digits_val(b) == digits_val(b0) * 10 + digit_char_val(b.last()));
    }
}

/// A prefix of a digit string never denotes more than the whole string.
pub proof fn lemma_digits_val_prefix_le(s: Seq<char>, j: int)
    requires
        0 <= j <= s.len(),
    ensures
        digits_val(s.take(j)) <= digits_val(s),
{
    let a = s.take(j);
    let b = s.skip(j);
    assert(s =~= a + b);
    lemma_digits_val_concat(a, b);
    lemma_pow10_pos(b.len());
    assert(digits_val(a) * pow10(b.len()) >= digits_val(a) * 1) by (nonlinear_arith)
        requires
            pow10(b.len()) >= 1,
    ;
}

/// Whether a character is a decimal digit.
pub fn is_digit(c: char) -> (r: bool)
    ensures
        r == is_digit_char(c),
{
    c == '0' || c == '1' || c == '2' || c == '3' || c == '4' || c == '5' || c == '6' || c == '7'
        || c == '8' || c == '9'
}

/// The value of a digit character; ten for anything else.
pub fn digit_of_char(c: char) -> (r: u64)
    ensures
        r as nat == digit_char_val(c),
{
    if c == '0' {
        0
    } else if c == '1' {
        1
    } else if c == '2' {
        2
    } else if c == '3' {
        3
    } else if c == '4' {
        4
    } else if c == '5' {
        5
    } else if c == '6' {
        6
    } else if c == '7' {
        7
    } else if c == '8' {
        8
    } else if c == '9' {
        9
    } else {
        10
    }
}

/// The digit character of a value below ten.
pub fn char_of_digit_exec(d: u64) -> (r: char)
    requires
        d < 10,
    ensures
        r == char_of_digit(d as nat),
{
    if d == 0 {
        '0'
    } else if d == 1 {
        '1'
    } else if d == 2 {
        '2'
    } else if d == 3 {
        '3'
    } else if d == 4 {
        '4'
    } else if d == 5 {
        '5'
    } else if d == 6 {
        '6'
    } else if d == 7 {
        '7'
    } else if d == 8 {
        '8'
    } else {
        '9'
    }
}

/// Appends the canonical `w`-digit rendering of `n` to `out`.
pub fn emit_fixed_digits(w: u32, n: u64, out: &mut Vec<char>)
    ensures
        final(out)@ == old(out)@ + fixed_digits(w as nat, n as nat),
    decreases w,
{
    if w == 0 {
        proof {
            assert(out@ =~= old(out)@ + fixed_digits(0, n as nat));
        }
    } else {
        emit_fixed_digits(w - 1, n / 10, out);
        let d = n % 10;
        out.push(char_of_digit_exec(d));
        proof {
            assert(out@ =~= old(out)@ + fixed_digits(w as nat, n as nat));
        }
    }
}

/// `10^19` is the largest power of ten a `u64` can hold.
pub proof fn lemma_pow10_19()
    ensures
        pow10(19) == 10000000000000000000,
{
    reveal_with_fuel(pow10, 20);
}

/// Ten to the `e`, executable for exponents a `u64` can hold.
pub fn pow10_exec(e: u32) -> (r: u64)
    requires
        e <= 19,
    ensures
        r as nat == pow10(e as nat),
        r >= 1,
{
    let mut r: u64 = 1;
    let mut i: u32 = 0;
    while i < e
        invariant
            i <= e,
            e <= 19,
            r as nat == pow10(i as nat),
            r >= 1,
        decreases e - i,
    {
        proof {
            lemma_pow10_mono((i + 1) as nat, 19);
            lemma_pow10_19();
        }
        r = r * 10;
        i += 1;
    }
    r
}


/// Minimal decimal rendering of a number: most significant digit first, no
/// leading zeros, a single `'0'` for zero.
pub open spec fn dec_digits(n: nat) -> Seq<char>
    decreases n,
{
    if n < 10 {
        seq![char_of_digit(n)]
    } else {
        dec_digits(n / 10).push(char_of_digit(n % 10))
    }
}

/// Appends the minimal decimal rendering of `n` to `out`.
pub fn emit_dec_digits(n: u64, out: &mut Vec<char>)
    ensures
        final(out)@ == old(out)@ + dec_digits(n as nat),
    decreases n,
{
    if n < 10 {
        out.push(char_of_digit_exec(n));
        proof {
            assert(out@ =~= old(out)@ + dec_digits(n as nat));
        }
    } else {
        emit_dec_digits(n / 10, out);
        out.push(char_of_digit_exec(n % 10));
        proof {
            assert(out@ =~= old(out)@ + dec_digits(n as nat));
        }
    }
}


/// For every character of a digit string, reading its value and rendering it
/// back is the identity.
proof fn lemma_digit_char_round(c: char)
    requires
        is_digit_char(c),
    ensures
        char_of_digit(digit_char_val(c)) == c,
{
}

/// Fixed-width decimal rendering is unique: a digit string is the canonical
/// rendering of its own value at its own width.
pub proof fn lemma_fixed_digits_unique(s: Seq<char>)
    requires
        all_digits(s),
    ensures
        s == fixed_digits(s.len(), digits_val(s)),
    decreases s.len(),
{
    if s.len() == 0 {
        assert(s =~= fixed_digits(0, 0));
    } else {
        let s0 = s.drop_last();
        let n = digits_val(s);
        assert(is_digit_char(s.last()));
        assert(digit_char_val(s.last()) < 10);
        vstd::arithmetic::div_mod::lemma_fundamental_div_mod_converse(
            n as int,
            10,
            digits_val(s0) as int,
            digit_char_val(s.last()) as int,
        );
        assert(n % 10 == digit_char_val(s.last()));
        assert(n / 10 == digits_val(s0));
        assert(all_digits(s0)) by {
            assert forall|i: int| 0 <= i < s0.len() implies is_digit_char(#[trigger] s0[i]) by {
                assert(s0[i] == s[i]);
            }
        }
        lemma_fixed_digits_unique(s0);
        lemma_digit_char_round(s.last());
        assert(s =~= fixed_digits((s.len() - 1) as nat, n / 10).push(char_of_digit(n % 10)));
    }
}

} // verus!
