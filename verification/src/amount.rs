//! Parsing a caller-supplied decimal amount string into a count of units.
//!
//! An asset amount such as `"0.0005"` is turned into an integer count of the
//! asset's best-fit unit, at `10^d` units per asset. The accepted grammar is
//! one or more digits, optionally followed by a dot and one or more digits;
//! the fraction may not be finer than one unit, and the value must fit in a
//! `u64`. Everything else is rejected.
use vstd::prelude::*;

use crate::digits::{
    all_digits, digit_of_char, digits_val, is_digit, lemma_digits_val_prefix_le, lemma_pow10_pos,
    pow10, pow10_exec,
};
use crate::strutil::chars_vec;

verus! {

/// `i` is the position of the first dot of `s`.
pub open spec fn is_first_dot(s: Seq<char>, i: int) -> bool {
    &&& 0 <= i < s.len()
    &&& s[i] == '.'
    &&& forall|j: int| 0 <= j < i ==> s[j] != '.'
}

/// The count of units an amount string denotes, at `10^d` units per asset:
/// the integer part scaled by `10^d`, plus the fraction scaled to units.
/// Nothing for a malformed string or a fraction finer than one unit.
pub open spec fn spec_parse_amount(s: Seq<char>, d: nat) -> Option<nat> {
    if s.len() > 0 && all_digits(s) {
        Some(digits_val(s) * pow10(d))
    } else if exists|i: int| is_first_dot(s, i) {
        let i = choose|i: int| is_first_dot(s, i);
        let ip = s.take(i);
        let fp = s.skip(i + 1);
        if ip.len() > 0 && fp.len() > 0 && fp.len() <= d && all_digits(ip) && all_digits(fp) {
            Some(digits_val(ip) * pow10(d) + digits_val(fp) * pow10((d - fp.len()) as nat))
        } else {
            None
        }
    } else {
        None
    }
}

/// Reads the value of the digit string `s[from..to]`; nothing on a non-digit
/// or once the value leaves `u64` range.
pub(crate) fn digits_value(s: &Vec<char>, from: usize, to: usize) -> (r: Option<u64>)
    requires
        from <= to <= s@.len(),
    ensures
        match r {
            Some(v) => all_digits(s@.subrange(from as int, to as int)) && v as nat == digits_val(
                s@.subrange(from as int, to as int),
            ),
            None => !all_digits(s@.subrange(from as int, to as int)) || digits_val(
                s@.subrange(from as int, to as int),
            ) > u64::MAX,
        },
{
    let ghost whole = s@.subrange(from as int, to as int);
    let mut acc: u64 = 0;
    let mut i: usize = from;
    while i < to
        invariant
            from <= i <= to <= s@.len(),
            whole == s@.subrange(from as int, to as int),
            all_digits(whole.take(i - from)),
            acc as nat == digits_val(whole.take(i - from)),
        decreases to - i,
    {
        let c = s[i];
        if !is_digit(c) {
            proof {
                assert(whole[i - from] == c);
            }
            return None;
        }
        let d = digit_of_char(c);
        proof {
            assert(whole.take(i - from + 1).drop_last() =~= whole.take(i - from));
            assert(whole.take(i - from + 1).last() == c);
        }
        if acc > (u64::MAX - d) / 10 {
            proof {
                let pref = whole.take(i - from + 1);
                assert(digits_val(pref) == acc * 10 + d as nat);
                assert(acc as nat * 10 + d as nat > u64::MAX) by (nonlinear_arith)
                    requires
                        acc > (u64::MAX - d) / 10,
                        d <= 10,
                ;
                lemma_digits_val_prefix_le(whole, i - from + 1);
                assert(whole.take(whole.len() as int) =~= whole);
            }
            return None;
        }
        acc = acc * 10 + d;
        i += 1;
    }
    proof {
        assert(whole.take(whole.len() as int) =~= whole);
    }
    Some(acc)
}

/// Parses a decimal amount string into a count of units, at `10^d` units per
/// asset. Returns exactly the value `spec_parse_amount` gives, and nothing
/// when there is none or it does not fit in a `u64`.
pub fn parse_amount(s: &str, d: u32) -> (r: Option<u64>)
    requires
        d <= 9,
    ensures
        match r {
            Some(v) => spec_parse_amount(s@, d as nat) == Some(v as nat),
            None => forall|v: u64| spec_parse_amount(s@, d as nat) != Some(v as nat),
        },
{
    let v = chars_vec(s);
    let n = v.len();
    // Find the first dot, if any.
    let mut dot: usize = n;
    let mut j: usize = 0;
    while j < n
        invariant
            n == v@.len(),
            v@ == s@,
            j <= n,
            dot <= n,
            dot == n ==> forall|k: int| 0 <= k < j ==> v@[k] != '.',
            dot < n ==> is_first_dot(s@, dot as int),
        decreases n - j,
    {
        if dot == n && v[j] == '.' {
            dot = j;
        }
        j += 1;
    }
    if dot == n {
        // No dot: the whole string must be digits.
        proof {
            assert forall|i: int| !is_first_dot(s@, i) by {
                if 0 <= i < s@.len() {
                    assert(s@[i] != '.');
                }
            }
        }
        if n == 0 {
            return None;
        }
        let iv = digits_value(&v, 0, n);
        proof {
            assert(v@.subrange(0, n as int) =~= s@);
        }
        match iv {
            None => {
                proof {
                    if all_digits(s@) {
                        // The integer part alone is already out of range.
                        assert forall|w: u64|
                            spec_parse_amount(s@, d as nat) != Some(w as nat) by {
                            lemma_pow10_pos(d as nat);
                            assert(digits_val(s@) * pow10(d as nat) >= digits_val(s@) * 1)
                                by (nonlinear_arith)
                                requires
                                    pow10(d as nat) >= 1,
                            ;
                        }
                    }
                }
                None
            },
            Some(ival) => {
                let scale = pow10_exec(d);
                // 10^9 at most, so the product fits in a u128.
                proof {
                    lemma_pow10_mono_d(d as nat);
                    assert(ival as nat * scale as nat <= 40000000000000000000000000000)
                        by (nonlinear_arith)
                        requires
                            ival <= u64::MAX,
                            scale as nat <= 1000000000,
                    ;
                }
                let wide: u128 = (ival as u128) * (scale as u128);
                if wide > u64::MAX as u128 {
                    return None;
                }
                Some(wide as u64)
            },
        }
    } else {
        // A dot: digits on both sides, fraction no finer than one unit.
        proof {
            assert(is_first_dot(s@, dot as int));
            let w = choose|i: int| is_first_dot(s@, i);
            assert(w == dot as int);
        }
        if dot == 0 || dot + 1 == n {
            return None;
        }
        let fl = n - (dot + 1);
        if fl > d as usize {
            return None;
        }
        let ipv = digits_value(&v, 0, dot);
        let fpv = digits_value(&v, dot + 1, n);
        proof {
            assert(v@.subrange(0, dot as int) =~= s@.take(dot as int));
            assert(v@.subrange(dot + 1 as int, n as int) =~= s@.skip(dot + 1));
        }
        let ghost ip = s@.take(dot as int);
        let ghost fp = s@.skip(dot + 1);
        match (ipv, fpv) {
            (Some(ival), Some(fval)) => {
                let scale = pow10_exec(d);
                let fscale = pow10_exec(d - fl as u32);
                proof {
                    lemma_pow10_mono_d(d as nat);
                    lemma_pow10_mono_d((d - fl) as nat);
                    assert(ival as nat * scale as nat <= 20000000000000000000000000000
                        && fval as nat * fscale as nat <= 20000000000000000000000000000)
                        by (nonlinear_arith)
                        requires
                            ival <= u64::MAX,
                            fval <= u64::MAX,
                            scale as nat <= 1000000000,
                            fscale as nat <= 1000000000,
                    ;
                }
                let wide: u128 = (ival as u128) * (scale as u128) + (fval as u128) * (fscale
                    as u128);
                if wide > u64::MAX as u128 {
                    return None;
                }
                Some(wide as u64)
            },
            _ => {
                proof {
                    if all_digits(ip) && all_digits(fp) {
                        // One of the parts is out of range, so the total is too.
                        assert forall|w: u64|
                            spec_parse_amount(s@, d as nat) != Some(w as nat) by {
                            lemma_pow10_pos(d as nat);
                            lemma_pow10_pos((d - fp.len()) as nat);
                            assert(digits_val(ip) * pow10(d as nat) >= digits_val(ip) * 1)
                                by (nonlinear_arith)
                                requires
                                    pow10(d as nat) >= 1,
                            ;
                            assert(digits_val(fp) * pow10((d - fp.len()) as nat) >= digits_val(fp)
                                * 1) by (nonlinear_arith)
                                requires
                                    pow10((d - fp.len()) as nat) >= 1,
                            ;
                        }
                    }
                }
                None
            },
        }
    }
}

/// Powers of ten up to the ninth stay below `10^9 + 1`.
proof fn lemma_pow10_mono_d(d: nat)
    requires
        d <= 9,
    ensures
        pow10(d) <= pow10(9),
        pow10(9) == 1000000000,
{
    crate::digits::lemma_pow10_mono(d, 9);
    reveal_with_fuel(pow10, 10);
}

} // verus!
