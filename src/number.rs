//! Decimal digit runs and their values.
use vstd::prelude::*;
use crate::scan::{is_digit_byte, run_end, CharClass, lemma_run_end_bounds};

verus! {

/// The value of a run of decimal digits.
pub open spec fn digits_value(s: Seq<u8>) -> nat
    decreases s.len(),
{
    if s.len() == 0 {
        0
    } else {
        digits_value(s.drop_last()) * 10 + (s.last() - 48) as nat
    }
}

pub open spec fn min_nat(a: nat, b: nat) -> nat {
    if a <= b {
        a
    } else {
        b
    }
}

proof fn lemma_capped_step(x: nat, c: nat, d: nat)
    ensures
        min_nat(min_nat(x, c) * 10 + d, c) == min_nat(x * 10 + d, c),
{
    if x >= c {
        assert(x * 10 + d >= c) by (nonlinear_arith)
            requires
                x >= c,
        ;
        assert(c * 10 + d >= c) by (nonlinear_arith);
    }
}

/// The value of the digits `s[a..b]`, or `cap` where it is larger.
pub fn digits_value_capped(s: &[u8], a: usize, b: usize, cap: u64) -> (r: u64)
    requires
        a <= b <= s@.len(),
        forall|k: int| a <= k < b ==> is_digit_byte(#[trigger] s@[k]),
    ensures
        r as nat == min_nat(digits_value(s@.subrange(a as int, b as int)), cap as nat),
{
    let mut v: u64 = 0;
    let mut i: usize = a;
    while i < b
        invariant
            a <= i <= b <= s@.len(),
            forall|k: int| a <= k < b ==> is_digit_byte(#[trigger] s@[k]),
            v as nat == min_nat(digits_value(s@.subrange(a as int, i as int)), cap as nat),
        decreases b - i,
    {
        let d = (s[i] - 48) as u128;
        let w: u128 = (v as u128) * 10 + d;
        proof {
            let t = s@.subrange(a as int, i as int + 1);
            assert(t.drop_last() =~= s@.subrange(a as int, i as int));
            lemma_capped_step(digits_value(s@.subrange(a as int, i as int)), cap as nat, d as nat);
        }
        if w > cap as u128 {
            v = cap;
        } else {
            v = w as u64;
        }
        i += 1;
    }
    v
}

/// Position after an optional leading minus sign.
pub open spec fn sign_end(s: Seq<u8>, p: int) -> int {
    if 0 <= p < s.len() && s[p] == 45 {
        p + 1
    } else {
        p
    }
}

/// End of `['-'] digit+` at `p`; not greater than `sign_end` when there is no digit.
pub open spec fn integer_end(s: Seq<u8>, p: int) -> int {
    run_end(CharClass::Digit, s, sign_end(s, p))
}

pub open spec fn has_integer(s: Seq<u8>, p: int) -> bool {
    integer_end(s, p) > sign_end(s, p)
}

/// The signed value of the integer text at `p`.
pub open spec fn integer_value(s: Seq<u8>, p: int) -> int {
    let q = sign_end(s, p);
    let m = digits_value(s.subrange(q, integer_end(s, p))) as int;
    if q > p {
        -m
    } else {
        m
    }
}

pub open spec fn in_i64(v: int) -> bool {
    i64::MIN <= v <= i64::MAX
}

/// Reads `['-'] digit+` at `p`: `None` where there is no digit or the value
/// does not fit an `i64`, else the value and the end of the text.
pub fn read_integer(s: &[u8], p: usize) -> (r: Option<(i64, usize)>)
    requires
        p <= s@.len(),
    ensures
        match r {
            Some((v, e)) => has_integer(s@, p as int) && in_i64(integer_value(s@, p as int))
                && v as int == integer_value(s@, p as int) && e as int == integer_end(s@, p as int)
                && p < e <= s@.len(),
            None => !has_integer(s@, p as int) || !in_i64(integer_value(s@, p as int)),
        },
{
    let q: usize = if p < s.len() && s[p] == 45 {
        p + 1
    } else {
        p
    };
    let e = crate::scan::run_end_unrolled(CharClass::Digit, s, q);
    proof {
        lemma_run_end_bounds(CharClass::Digit, s@, q as int);
    }
    if e == q {
        return None;
    }
    let m = digits_value_capped(s, q, e, 9223372036854775809u64);
    if q > p {
        if m == 9223372036854775809u64 {
            None
        } else if m == 9223372036854775808u64 {
            Some((-9223372036854775807i64 - 1, e))
        } else {
            Some((-(m as i64), e))
        }
    } else {
        if m >= 9223372036854775808u64 {
            None
        } else {
            Some((m as i64, e))
        }
    }
}

} // verus!
