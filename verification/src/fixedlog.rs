//! Fixed-point binary logarithm of a rational `total / count`.
//!
//! The information metrics need `log2(total/count)` on a deterministic
//! integer scale. This module computes it exactly in integer arithmetic by
//! binary digit extraction: the integer part by repeated doubling, then 30
//! fractional bits by repeated squaring of a 32-fractional-bit fixed-point
//! state. The result has `2^30` steps per bit of information, well above the
//! million steps per bit the ranking policy asks for, and is a pure function
//! of its integer arguments, so equal inputs rank equally on every machine.

use vstd::arithmetic::power2::{lemma2_to64, lemma_pow2_strictly_increases, pow2};
use vstd::prelude::*;

verus! {

/// `2^30`, the number of fixed-point steps per bit in results.
pub const LOG_ONE: u64 = 0x4000_0000;

/// `2^32`, the fixed-point scale of the internal squaring state.
pub const STATE_ONE: u64 = 0x1_0000_0000;

/// Integer part of `log2(t / c)`: how often `c` doubles while staying
/// within `t`.
pub open spec fn int_log2(c: nat, t: nat) -> nat
    decreases t - c,
{
    if c < 1 || 2 * c > t {
        0
    } else {
        1 + int_log2(2 * c, t)
    }
}

/// One squaring step of the fixed-point state, dropping back to scale.
pub open spec fn sq_step(x: nat) -> nat {
    (x * x) / (STATE_ONE as nat)
}

/// The `n` leading fractional bits of `log2(x / 2^32)` for `x` in
/// `[2^32, 2^33)`, packed most-significant first.
pub open spec fn frac_bits(x: nat, n: nat) -> nat
    decreases n,
{
    if n == 0 {
        0
    } else {
        let y = sq_step(x);
        if y >= 2 * (STATE_ONE as nat) {
            pow2((n - 1) as nat) + frac_bits(y / 2, (n - 1) as nat)
        } else {
            frac_bits(y, (n - 1) as nat)
        }
    }
}

/// Initial fixed-point state: the ratio `t / (c * 2^k)` in `[1, 2)`, at
/// scale `2^32`.
pub open spec fn state0(c: nat, t: nat) -> nat {
    (t * (STATE_ONE as nat)) / (c * pow2(int_log2(c, t)))
}

/// `log2(t / c)` in units of `2^-30`: the integer part shifted up by 30
/// bits, plus 30 extracted fractional bits.
pub open spec fn log2_fixed(c: nat, t: nat) -> nat {
    if c < 1 || t < c {
        0
    } else {
        int_log2(c, t) * (LOG_ONE as nat) + frac_bits(state0(c, t), 30)
    }
}

/// How the fixed-point logarithm splits into whole doublings and fraction.
pub proof fn lemma_log2_fixed_parts(c: nat, t: nat)
    requires
        1 <= c <= t,
    ensures
        log2_fixed(c, t) == int_log2(c, t) * (LOG_ONE as nat) + frac_bits(state0(c, t), 30),
        int_log2(c, t) * (LOG_ONE as nat) <= log2_fixed(c, t),
        log2_fixed(c, t) < (int_log2(c, t) + 1) * (LOG_ONE as nat),
{
    lemma_frac_bits_bound(state0(c, t), 30);
    assert(pow2(30) == LOG_ONE as nat) by { lemma2_to64(); };
    assert((int_log2(c, t) + 1) * (LOG_ONE as nat) == int_log2(c, t) * (LOG_ONE as nat) + (
    LOG_ONE as nat)) by (nonlinear_arith);
}

/// The fractional bits always fit below `2^n`.
pub proof fn lemma_frac_bits_bound(x: nat, n: nat)
    ensures
        frac_bits(x, n) < pow2(n),
    decreases n,
{
    vstd::arithmetic::power2::lemma_pow2_pos(n);
    if n == 0 {
        assert(pow2(0) == 1) by { lemma2_to64(); };
    } else {
        let y = sq_step(x);
        vstd::arithmetic::power2::lemma_pow2_unfold(n);
        if y >= 2 * (STATE_ONE as nat) {
            lemma_frac_bits_bound(y / 2, (n - 1) as nat);
        } else {
            lemma_frac_bits_bound(y, (n - 1) as nat);
        }
    }
}

/// Doubling until `t` is reached never takes more than `log2(t)` steps;
/// with `t` at most a million, at most 20.
pub proof fn lemma_int_log2_bound(c: nat, t: nat)
    requires
        1 <= c <= t,
        t <= 1_000_000,
    ensures
        int_log2(c, t) <= 20,
        pow2(int_log2(c, t)) * c <= t,
    decreases t - c,
{
    if 2 * c > t {
        assert(pow2(0) == 1) by { lemma2_to64(); };
        assert(int_log2(c, t) == 0);
        assert(pow2(int_log2(c, t)) * c == c) by (nonlinear_arith)
            requires
                pow2(int_log2(c, t)) == 1,
        ;
    } else {
        lemma_int_log2_bound(2 * c, t);
        let k = int_log2(2 * c, t);
        assert(pow2(k + 1) == 2 * pow2(k)) by {
            vstd::arithmetic::power2::lemma_pow2_unfold(k + 1);
        }
        assert(pow2(k + 1) * c == pow2(k) * (2 * c)) by (nonlinear_arith)
            requires
                pow2(k + 1) == 2 * pow2(k),
        ;
        assert(int_log2(c, t) == k + 1);
        assert(pow2(int_log2(c, t)) * c <= t);
        if int_log2(c, t) > 20 {
            assert(k >= 20);
            assert(pow2(20) <= pow2(k)) by {
                if k > 20 {
                    lemma_pow2_strictly_increases(20, k);
                }
            }
            assert(pow2(20) == 0x100000) by { lemma2_to64(); };
            assert(pow2(k) * (2 * c) >= 0x100000 * 2) by (nonlinear_arith)
                requires
                    pow2(k) >= 0x100000,
                    2 * c >= 2,
            ;
        }
    }
}

/// The exact logarithm of an exact power: `log2(t/c) == 0` when `t == c`.
pub proof fn lemma_log2_fixed_equal(c: nat)
    requires
        1 <= c,
    ensures
        log2_fixed(c, c) == 0,
{
    assert(int_log2(c, c) == 0);
    assert(pow2(0) == 1) by { lemma2_to64(); };
    let x0 = (c * (STATE_ONE as nat)) / (c * 1);
    assert(c * (STATE_ONE as nat) / (c * 1) == STATE_ONE as nat) by (nonlinear_arith)
        requires
            1 <= c,
    ;
    lemma_frac_one_zero(30);
}

/// The state for an exact ratio of one never sets a bit.
proof fn lemma_frac_one_zero(n: nat)
    ensures
        frac_bits(STATE_ONE as nat, n) == 0,
    decreases n,
{
    if n > 0 {
        assert(sq_step(STATE_ONE as nat) == STATE_ONE as nat);
        lemma_frac_one_zero((n - 1) as nat);
    }
}

/// Squaring at least doubles the state's excess over one.
proof fn lemma_sq_grows(x: nat, d: nat)
    requires
        x == (STATE_ONE as nat) + d,
    ensures
        sq_step(x) >= (STATE_ONE as nat) + 2 * d,
{
    let s = STATE_ONE as nat;
    assert(x * x == s * (s + 2 * d) + d * d) by (nonlinear_arith)
        requires
            x == s + d,
    ;
    assert((s * (s + 2 * d) + d * d) / s >= s + 2 * d) by (nonlinear_arith)
        requires
            s > 0,
    ;
}

/// If the state's excess over one is at least `2^(33-j)`, a bit fires
/// within `j` extraction steps, so the `n`-bit fraction is at least
/// `2^(n-j)`.
pub proof fn lemma_frac_bits_lower(x: nat, n: nat, j: nat)
    requires
        1 <= j <= n <= 30,
        (STATE_ONE as nat) < x < 2 * (STATE_ONE as nat),
        x - (STATE_ONE as nat) >= pow2((33 - j) as nat),
    ensures
        frac_bits(x, n) >= pow2((n - j) as nat),
    decreases j,
{
    let s = STATE_ONE as nat;
    let d = (x - s) as nat;
    assert(pow2(32) == s) by { lemma2_to64(); };
    if j == 1 {
        // the excess would have to reach the scale itself, which x < 2*s forbids
        assert(d >= pow2(32));
        assert(false);
    } else {
        lemma_sq_grows(x, d);
        let y = sq_step(x);
        if y >= 2 * s {
            lemma_frac_bits_bound(y / 2, (n - 1) as nat);
            vstd::arithmetic::power2::lemma_pow2_pos((n - 1) as nat);
            assert(pow2((n - j) as nat) <= pow2((n - 1) as nat)) by {
                if n - j < n - 1 {
                    lemma_pow2_strictly_increases((n - j) as nat, (n - 1) as nat);
                }
            }
        } else {
            assert(y - s >= 2 * d);
            assert(2 * pow2((33 - j) as nat) == pow2((33 - (j - 1)) as nat)) by {
                vstd::arithmetic::power2::lemma_pow2_unfold((34 - j) as nat);
            }
            lemma_frac_bits_lower(y, (n - 1) as nat, (j - 1) as nat);
        }
    }
}

/// Division keeps order with a positive divisor.
proof fn lemma_div_ordered(a: nat, b: nat, m: nat)
    requires
        0 < m,
        a <= b,
    ensures
        a / m <= b / m,
{
    assert(a / m <= b / m) by (nonlinear_arith)
        requires
            0 < m,
            a <= b,
    ;
}

/// A strictly smaller ratio than one of `t == c` gives a strictly positive
/// logarithm: the fixed-point value is at least `2^9`, provided the total
/// stays within a million.
pub proof fn lemma_log2_fixed_positive(c: nat, t: nat)
    requires
        1 <= c < t,
        t <= 1_000_000,
    ensures
        log2_fixed(c, t) >= 512,
{
    let s = STATE_ONE as nat;
    let one = LOG_ONE as nat;
    let k = int_log2(c, t);
    lemma_int_log2_bound(c, t);
    let ck = c * pow2(k);
    let x0 = (t * s) / ck;
    vstd::arithmetic::power2::lemma_pow2_pos(k);
    assert(ck >= 1) by (nonlinear_arith)
        requires
            c >= 1,
            pow2(k) >= 1,
            ck == c * pow2(k),
    ;
    assert(log2_fixed(c, t) == k * one + frac_bits(x0, 30));
    if k >= 1 {
        assert(pow2(9) == 512) by { lemma2_to64(); };
        assert(k * one >= one) by (nonlinear_arith)
            requires
                k >= 1,
        ;
        assert(log2_fixed(c, t) >= k * one);
    } else {
        // no doubling fits: c < t < 2c, so the excess of t*2^32/c over 2^32
        // is at least 2^32/c, which is at least 2^12 for c below a million
        assert(pow2(0) == 1) by { lemma2_to64(); };
        assert(k == 0);
        assert(pow2(k) == 1);
        assert(ck == c * 1) by (nonlinear_arith)
            requires
                ck == c * pow2(k),
                pow2(k) == 1,
        ;
        assert(ck == c);
        assert(2 * c > t);
        assert(x0 >= s + s / c) by {
            assert(t >= c + 1);
            assert(t * s >= (c + 1) * s) by (nonlinear_arith)
                requires
                    t >= c + 1,
                    s > 0,
            ;
            lemma_div_ordered((c + 1) * s, t * s, c);
            assert(((c + 1) * s) / c >= s + s / c) by (nonlinear_arith)
                requires
                    c > 0,
            ;
        }
        assert(s / c >= pow2(12)) by {
            assert(pow2(12) == 4096) by { lemma2_to64(); };
            lemma_div_ordered(1_000_000, s, c);
            assert(c * 4096 <= 1_000_000 * 4096) by (nonlinear_arith)
                requires
                    c <= 1_000_000,
            ;
            assert(1_000_000 * 4096 <= s);
            lemma_div_ordered(c * 4096, s, c);
            assert((c * 4096) / c == 4096) by (nonlinear_arith)
                requires
                    c > 0,
            ;
        }
        assert(x0 < 2 * s) by {
            assert(t * s < (2 * c) * s) by (nonlinear_arith)
                requires
                    t < 2 * c,
                    s > 0,
            ;
            assert((t * s) / c < 2 * s) by (nonlinear_arith)
                requires
                    t * s < (2 * c) * s,
                    c > 0,
            ;
        }
        assert(pow2(12) == 4096) by { lemma2_to64(); };
        assert(x0 - s >= pow2(12));
        assert(pow2(12) == pow2((33 - 21) as nat));
        lemma_frac_bits_lower(x0, 30, 21);
        assert(pow2(9) == 512) by { lemma2_to64(); };
    }
}

/// No further doubling fits: the integer part is maximal.
pub proof fn lemma_int_log2_max(c: nat, t: nat)
    requires
        1 <= c <= t,
    ensures
        pow2(int_log2(c, t) + 1) * c > t,
    decreases t - c,
{
    if 2 * c > t {
        assert(pow2(1) == 2) by { lemma2_to64(); };
    } else {
        lemma_int_log2_max(2 * c, t);
        let k = int_log2(2 * c, t);
        assert(int_log2(c, t) == k + 1);
        assert(pow2(k + 2) == 2 * pow2(k + 1)) by {
            vstd::arithmetic::power2::lemma_pow2_unfold(k + 2);
        }
        assert(pow2(k + 2) * c == pow2(k + 1) * (2 * c)) by (nonlinear_arith)
            requires
                pow2(k + 2) == 2 * pow2(k + 1),
        ;
    }
}

/// A larger starting count never doubles more often.
pub proof fn lemma_int_log2_antimono(c1: nat, c2: nat, t: nat)
    requires
        1 <= c1 <= c2 <= t,
    ensures
        int_log2(c2, t) <= int_log2(c1, t),
{
    let k1 = int_log2(c1, t);
    let k2 = int_log2(c2, t);
    lemma_int_log2_le(c2, t);
    lemma_int_log2_max(c1, t);
    if k2 > k1 {
        assert(pow2(k1 + 1) <= pow2(k2)) by {
            if k1 + 1 < k2 {
                lemma_pow2_strictly_increases(k1 + 1, k2);
            }
        }
        assert(pow2(k1 + 1) * c1 <= pow2(k2) * c2) by (nonlinear_arith)
            requires
                pow2(k1 + 1) <= pow2(k2),
                c1 <= c2,
        ;
    }
}

/// Doublings stay within the total.
proof fn lemma_int_log2_le(c: nat, t: nat)
    requires
        1 <= c <= t,
    ensures
        pow2(int_log2(c, t)) * c <= t,
    decreases t - c,
{
    if 2 * c > t {
        assert(pow2(0) == 1) by { lemma2_to64(); };
        assert(int_log2(c, t) == 0);
        assert(pow2(int_log2(c, t)) * c == c) by (nonlinear_arith)
            requires
                pow2(int_log2(c, t)) == 1,
        ;
    } else {
        lemma_int_log2_le(2 * c, t);
        let k = int_log2(2 * c, t);
        assert(pow2(k + 1) == 2 * pow2(k)) by {
            vstd::arithmetic::power2::lemma_pow2_unfold(k + 1);
        }
        assert(pow2(k + 1) * c == pow2(k) * (2 * c)) by (nonlinear_arith)
            requires
                pow2(k + 1) == 2 * pow2(k),
        ;
        assert(int_log2(c, t) == k + 1);
        assert(pow2(int_log2(c, t)) * c <= t);
    }
}

/// The squaring step keeps order.
proof fn lemma_sq_step_monotone(x1: nat, x2: nat)
    requires
        x1 <= x2,
    ensures
        sq_step(x1) <= sq_step(x2),
{
    assert(x1 * x1 <= x2 * x2) by (nonlinear_arith)
        requires
            x1 <= x2,
    ;
    assert((x1 * x1) / (STATE_ONE as nat) <= (x2 * x2) / (STATE_ONE as nat)) by (
    nonlinear_arith)
        requires
            x1 * x1 <= x2 * x2,
    ;
}

/// Fraction extraction keeps order of the starting states.
pub proof fn lemma_frac_bits_monotone(x1: nat, x2: nat, n: nat)
    requires
        x1 <= x2,
    ensures
        frac_bits(x1, n) <= frac_bits(x2, n),
    decreases n,
{
    if n > 0 {
        lemma_sq_step_monotone(x1, x2);
        let y1 = sq_step(x1);
        let y2 = sq_step(x2);
        let two = 2 * (STATE_ONE as nat);
        if y1 >= two && y2 >= two {
            assert(y1 / 2 <= y2 / 2) by (nonlinear_arith)
                requires
                    y1 <= y2,
            ;
            lemma_frac_bits_monotone(y1 / 2, y2 / 2, (n - 1) as nat);
        } else if y1 < two && y2 < two {
            lemma_frac_bits_monotone(y1, y2, (n - 1) as nat);
        } else {
            // only the larger state fires the bit: its fraction dominates
            lemma_frac_bits_bound(y1, (n - 1) as nat);
            vstd::arithmetic::power2::lemma_pow2_pos((n - 1) as nat);
        }
    }
}

/// A larger count gives a smaller fixed-point logarithm of the same total.
pub proof fn lemma_log2_fixed_antimono(c1: nat, c2: nat, t: nat)
    requires
        1 <= c1 <= c2 <= t,
    ensures
        log2_fixed(c2, t) <= log2_fixed(c1, t),
{
    let one = LOG_ONE as nat;
    let s = STATE_ONE as nat;
    let k1 = int_log2(c1, t);
    let k2 = int_log2(c2, t);
    lemma_int_log2_antimono(c1, c2, t);
    lemma_log2_fixed_parts(c1, t);
    lemma_log2_fixed_parts(c2, t);
    if k2 < k1 {
        assert((k2 + 1) * one <= k1 * one) by (nonlinear_arith)
            requires
                k2 + 1 <= k1,
                one > 0,
        ;
    } else {
        assert(k1 == k2);
        assert(state0(c2, t) <= state0(c1, t)) by {
            vstd::arithmetic::power2::lemma_pow2_pos(k1);
            assert(c1 * pow2(k1) <= c2 * pow2(k1)) by (nonlinear_arith)
                requires
                    c1 <= c2,
                    pow2(k1) >= 1,
            ;
            assert(c1 * pow2(k1) >= 1) by (nonlinear_arith)
                requires
                    c1 >= 1,
                    pow2(k1) >= 1,
            ;
            assert((t * s) / (c2 * pow2(k2)) <= (t * s) / (c1 * pow2(k1))) by (nonlinear_arith)
                requires
                    1 <= c1 * pow2(k1) <= c2 * pow2(k2),
                ;
        }
        lemma_frac_bits_monotone(state0(c2, t), state0(c1, t), 30);
        assert(k1 * one + frac_bits(state0(c2, t), 30) <= k1 * one + frac_bits(
            state0(c1, t),
            30,
        ));
    }
}

/// Compute `log2_fixed(c, t)` by binary digit extraction.
pub fn log2_fixed_exec(c: usize, t: usize) -> (r: u64)
    requires
        1 <= c <= t <= 1_000_000,
    ensures
        r == log2_fixed(c as nat, t as nat),
        r <= 21 * (LOG_ONE as u64),
{
    proof {
        lemma_int_log2_bound(c as nat, t as nat);
        lemma2_to64();
    }
    let ghost kk = int_log2(c as nat, t as nat);
    let mut c2: u64 = c as u64;
    let mut k: u64 = 0;
    while 2 * c2 <= t as u64
        invariant
            1 <= c as nat <= t as nat <= 1_000_000,
            1 <= c2,
            c2 as nat == (c as nat) * pow2(k as nat),
            c2 <= t as u64,
            k as nat + int_log2(c2 as nat, t as nat) == kk,
            kk <= 20,
        decreases t as u64 - c2,
    {
        proof {
            assert(pow2(k as nat + 1) == 2 * pow2(k as nat)) by {
                vstd::arithmetic::power2::lemma_pow2_unfold(k as nat + 1);
            }
            assert((c as nat) * (2 * pow2(k as nat)) == 2 * ((c as nat) * pow2(k as nat)))
                by (nonlinear_arith);
            assert(int_log2(c2 as nat, t as nat) == 1 + int_log2(2 * (c2 as nat), t as nat));
        }
        c2 = 2 * c2;
        k = k + 1;
    }
    proof {
        assert(int_log2(c2 as nat, t as nat) == 0);
        assert(k as nat == kk);
    }
    // fixed-point state for the ratio t / (c * 2^k), in [2^32, 2^33)
    let x0: u64 = ((t as u64) * STATE_ONE) / c2;
    proof {
        let s = STATE_ONE as nat;
        assert(x0 as nat == ((t as nat) * s) / (c2 as nat));
        assert(x0 as nat >= s) by {
            assert((t as nat) * s >= (c2 as nat) * s) by (nonlinear_arith)
                requires
                    t as nat >= c2 as nat,
                    s > 0,
            ;
            lemma_div_ordered((c2 as nat) * s, (t as nat) * s, c2 as nat);
            assert(((c2 as nat) * s) / (c2 as nat) == s) by (nonlinear_arith)
                requires
                    c2 as nat > 0,
            ;
        }
        assert((x0 as nat) < 2 * s) by {
            assert((t as nat) * s < (2 * (c2 as nat)) * s) by (nonlinear_arith)
                requires
                    (t as nat) < 2 * (c2 as nat),
                    s > 0,
            ;
            assert(((t as nat) * s) / (c2 as nat) < 2 * s) by (nonlinear_arith)
                requires
                    (t as nat) * s < (2 * (c2 as nat)) * s,
                    c2 as nat > 0,
            ;
        }
    }
    proof {
        lemma2_to64();
    }
    let mut x: u64 = x0;
    let mut f: u64 = 0;
    let mut i: usize = 0;
    while i < 30
        invariant
            i <= 30,
            STATE_ONE <= x < 2 * STATE_ONE,
            f < pow2(i as nat),
            f < 0x40000000,
            frac_bits(x0 as nat, 30) == (f as nat) * pow2((30 - i) as nat) + frac_bits(
                x as nat,
                (30 - i) as nat,
            ),
        decreases 30 - i,
    {
        proof {
            let s = STATE_ONE as nat;
            assert((x as nat) * (x as nat) < 4 * s * s) by (nonlinear_arith)
                requires
                    (x as nat) < 2 * s,
            ;
            assert((x as nat) * (x as nat) >= s * s) by (nonlinear_arith)
                requires
                    (x as nat) >= s,
            ;
            assert((s * s) / s == s) by (nonlinear_arith)
                requires
                    s > 0,
            ;
            lemma_div_ordered(s * s, (x as nat) * (x as nat), s);
            assert(((x as nat) * (x as nat)) / s < 4 * s) by (nonlinear_arith)
                requires
                    (x as nat) * (x as nat) < 4 * s * s,
                    s > 0,
            ;
        }
        let y: u64 = (((x as u128) * (x as u128)) / (STATE_ONE as u128)) as u64;
        proof {
            assert(y as nat == sq_step(x as nat));
            assert(pow2((30 - i) as nat) == 2 * pow2((29 - i) as nat)) by {
                vstd::arithmetic::power2::lemma_pow2_unfold((30 - i) as nat);
            }
            vstd::arithmetic::power2::lemma_pow2_unfold(i as nat + 1);
            lemma2_to64();
            assert(pow2(i as nat + 1) <= pow2(30)) by {
                if i + 1 < 30 {
                    lemma_pow2_strictly_increases(i as nat + 1, 30);
                }
            }
            assert((2 * (f as nat) + 1) * pow2((29 - i) as nat) == (f as nat) * (2 * pow2(
                (29 - i) as nat,
            )) + pow2((29 - i) as nat)) by (nonlinear_arith);
            assert((2 * (f as nat)) * pow2((29 - i) as nat) == (f as nat) * (2 * pow2(
                (29 - i) as nat,
            ))) by (nonlinear_arith);
        }
        if y >= 2 * STATE_ONE {
            x = y / 2;
            f = 2 * f + 1;
        } else {
            x = y;
            f = 2 * f;
        }
        i = i + 1;
    }
    proof {
        assert(pow2(0) == 1) by { lemma2_to64(); };
        assert(frac_bits(x as nat, 0) == 0);
        assert((f as nat) * pow2((30 - 30) as nat) == f as nat) by (nonlinear_arith)
            requires
                pow2((30 - 30) as nat) == 1,
        ;
        assert(frac_bits(x0 as nat, 30) == f as nat);
        lemma_frac_bits_bound(x0 as nat, 30);
        assert(pow2(30) == LOG_ONE as nat) by { lemma2_to64(); };
        assert(kk * (LOG_ONE as nat) <= 20 * (LOG_ONE as nat)) by (nonlinear_arith)
            requires
                kk <= 20,
        ;
        assert(log2_fixed(c as nat, t as nat) == kk * (LOG_ONE as nat) + frac_bits(
            x0 as nat,
            30,
        ));
    }
    k * LOG_ONE + f
}

} // verus!
