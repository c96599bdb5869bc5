//! The digit engine: the n-th hexadecimal digit of pi's fractional part,
//! by the Bailey-Borwein-Plouffe (BBP) digit-extraction series.
//!
//! All fractions are carried as 64-bit fixed-point values: the integer `x`
//! stands for the real number `x / 2^64`, and reduction modulo 1 of the
//! real value is reduction modulo `2^64` of its fixed-point image.  Every
//! quantity is an integer, so the value of each function is pinned exactly
//! by the specification functions below.

use vstd::calc;
use vstd::prelude::*;
use vstd::arithmetic::power::{
    pow, lemma_pow1, lemma_pow_adds, lemma_pow_increases, lemma_pow_mod_noop,
    lemma_pow_multiplies,
};
use vstd::arithmetic::div_mod::{
    lemma_add_mod_noop, lemma_div_is_ordered, lemma_div_is_ordered_by_denominator,
    lemma_div_pos_is_pos, lemma_mod_bound, lemma_mod_multiples_vanish,
    lemma_mul_mod_noop_general, lemma_multiply_divide_lt, lemma_small_mod,
};
use vstd::arithmetic::mul::{lemma_mul_is_associative, lemma_mul_strict_inequality};

verus! {

/// One term of the finite part of the BBP sum for parameter `j`:
/// the fractional part of `16^(d-k) / (8k+j)`, in 64-bit fixed point,
/// rounded down.
pub open spec fn head_term(d: int, k: int, j: int) -> int {
    (pow(16, (d - k) as nat) % (8 * k + j)) * 0x10000000000000000 / (8 * k + j)
}

/// The finite part of the BBP sum: terms `k` in `0 .. n`.
pub open spec fn head_sum(d: int, j: int, n: int) -> int
    decreases n,
{
    if n <= 0 {
        0
    } else {
        head_sum(d, j, n - 1) + head_term(d, n - 1, j)
    }
}

/// One term of the convergent tail of the BBP sum: `16^(-m) / (8(d+m)+j)`
/// in 64-bit fixed point, rounded down.  It is zero for every `m >= 16`.
pub open spec fn tail_term(d: int, m: int, j: int) -> int {
    0x10000000000000000int / (pow(16, m as nat) * (8 * (d + m) + j))
}

/// The tail of the BBP sum: terms `m` in `1 ..= n`.
pub open spec fn tail_sum(d: int, j: int, n: int) -> int
    decreases n,
{
    if n <= 0 {
        0
    } else {
        tail_sum(d, j, n - 1) + tail_term(d, n, j)
    }
}

/// The partial sum `S_j` of the BBP formula for digit `d`, reduced modulo 1:
/// the fractional part of `sum_k 16^(d-k) / (8k+j)`, in 64-bit fixed point.
/// Tail terms from `m = 16` on are zero in this precision, so the tail stops
/// there.
pub open spec fn series_spec(d: int, j: int) -> int {
    (head_sum(d, j, d + 1) + tail_sum(d, j, 16)) % 0x10000000000000000
}

/// The first hexadecimal digit after the point of `16^d * pi`: the
/// combination `4*S1 - 2*S4 - S5 - S6` of the four BBP partial sums,
/// reduced modulo 1, multiplied by 16 and rounded down.  In fixed point:
/// Euclidean reduction modulo `2^64`, then division by `2^60`.
pub open spec fn bbp_digit(d: int) -> int {
    ((4 * series_spec(d, 1) - 2 * series_spec(d, 4) - series_spec(d, 5) - series_spec(d, 6))
        % 0x10000000000000000) / 0x1000000000000000
}

/// The d-th hexadecimal digit of pi, counting the leading `3` of
/// `3.243F6A88...` as digit 0.  Digit 0 is pi's integer part; digit `d`
/// for positive `d` is the d-th digit after the point, which the BBP
/// series extracts as the leading digit of the fractional part of
/// `16^(d-1) * pi`.
pub open spec fn pi_digit_spec(d: int) -> int {
    if d <= 0 {
        3
    } else {
        bbp_digit(d - 1)
    }
}

/// Every digit lies in `0 .. 16`.
pub proof fn lemma_bbp_digit_bounds(d: int)
    ensures
        0 <= bbp_digit(d) < 16,
{
    let x = 4 * series_spec(d, 1) - 2 * series_spec(d, 4) - series_spec(d, 5) - series_spec(
        d,
        6,
    );
    lemma_mod_bound(x, 0x10000000000000000);
    lemma_div_pos_is_pos(x % 0x10000000000000000, 0x1000000000000000);
    lemma_div_is_ordered(x % 0x10000000000000000, 0xffffffffffffffff, 0x1000000000000000);
}

/// Every digit lies in `0 .. 16`.
pub proof fn lemma_pi_digit_bounds(d: int)
    ensures
        0 <= pi_digit_spec(d) < 16,
{
    if d > 0 {
        lemma_bbp_digit_bounds(d - 1);
    }
}

/// Modular exponentiation: `(a ^ b) mod mod_val`, by binary exponentiation.
/// The modulus is kept below `2^32` so that every intermediate product of
/// two residues fits in a `u64`.
pub fn binpow(a: u64, b: u64, mod_val: u64) -> (r: u64)
    requires
        1 <= mod_val <= 0xffff_ffff,
    ensures
        r as int == pow(a as int, b as nat) % (mod_val as int),
        r < mod_val,
{
    let m = mod_val;
    let mut x: u64 = a % m;
    let mut e: u64 = b;
    let mut result: u64 = 1 % m;
    proof {
        lemma_pow_mod_noop(a as int, b as nat, m as int);
        lemma_mod_bound(1, m as int);
        assert((result as int * pow(x as int, e as nat)) % (m as int) == pow(a as int, b as nat)
            % (m as int)) by {
            lemma_mul_mod_noop_general(1, pow(x as int, e as nat), m as int);
        }
    }
    while e > 0
        invariant
            1 <= m <= 0xffff_ffff,
            x < m,
            result < m,
            (result as int * pow(x as int, e as nat)) % (m as int) == pow(a as int, b as nat) % (
            m as int),
        decreases e,
    {
        let ghost r0 = result as int;
        let ghost x0 = x as int;
        let ghost e0 = e as nat;
        proof {
            lemma_binpow_step(r0, x0, e0, m as int);
            assert((result as int) * (x as int) < 0x10000000000000000) by (nonlinear_arith)
                requires
                    result < 0x1_0000_0000,
                    x < 0x1_0000_0000,
            ;
            assert((x as int) * (x as int) < 0x10000000000000000) by (nonlinear_arith)
                requires
                    x < 0x1_0000_0000,
            ;
            lemma_mod_bound(r0 * x0, m as int);
            lemma_mod_bound(x0 * x0, m as int);
        }
        if e % 2 == 1 {
            result = (result * x) % m;
        }
        x = (x * x) % m;
        e = e / 2;
    }
    proof {
        assert(pow(x as int, 0) == 1) by {
            vstd::arithmetic::power::lemma_pow0(x as int);
        }
        lemma_small_mod(result as nat, m as nat);
    }
    result
}

/// The partial sum `S_j` of the BBP formula for digit `d`, carried out in
/// 64-bit fixed point exactly as `series_spec` states it: the running sum
/// is reduced modulo 1 (modulo `2^64` in fixed point) after every term, and
/// tail terms are added until they vanish at this precision, which happens
/// at `m = 16` at the latest since `16^16 = 2^64`.
pub fn series(d: u16, j: u64) -> (r: u64)
    requires
        1 <= j <= 6,
    ensures
        r as int == series_spec(d as int, j as int),
{
    let mut sum: u64 = 0;
    let mut k: u32 = 0;
    while k <= d as u32
        invariant
            1 <= j <= 6,
            k <= d as u32 + 1,
            sum as int == head_sum(d as int, j as int, k as int) % 0x10000000000000000,
        decreases d + 1 - k,
    {
        let denom: u64 = 8 * (k as u64) + j;
        let mod_num: u64 = binpow(16, d as u64 - k as u64, denom);
        proof {
            lemma_mul_strict_inequality(mod_num as int, denom as int, 0x10000000000000000);
            lemma_multiply_divide_lt(
                (mod_num as int) * 0x10000000000000000,
                denom as int,
                0x10000000000000000,
            );
            lemma_div_pos_is_pos((mod_num as int) * 0x10000000000000000, denom as int);
        }
        let term: u64 = (((mod_num as u128) * 0x10000000000000000u128) / (denom as u128)) as u64;
        proof {
            assert(term as int == head_term(d as int, k as int, j as int));
            lemma_small_mod(term as nat, 0x10000000000000000nat);
            lemma_add_mod_noop(
                head_sum(d as int, j as int, k as int),
                term as int,
                0x10000000000000000,
            );
            lemma_mod_bound(
                head_sum(d as int, j as int, k as int) + term as int,
                0x10000000000000000,
            );
        }
        let s: u128 = (sum as u128) + (term as u128);
        sum = (s % 0x10000000000000000u128) as u64;
        k = k + 1;
    }
    let mut mc: u64 = 1;
    let mut pow16: u128 = 16;
    proof {
        lemma_pow1(16);
        lemma_pow16_16();
    }
    while mc <= 16
        invariant
            1 <= j <= 6,
            1 <= mc <= 17,
            pow16 == pow(16, mc as nat),
            sum as int == (head_sum(d as int, j as int, d as int + 1) + tail_sum(
                d as int,
                j as int,
                mc as int - 1,
            )) % 0x10000000000000000,
        decreases 17 - mc,
    {
        let denom: u64 = 8 * (d as u64 + mc) + j;
        proof {
            lemma_pow16_16();
            lemma_pow_increases(16, mc as nat, 16);
            lemma_pow_increases(16, 1, mc as nat);
            lemma_pow1(16);
            assert((pow16 as int) * (denom as int) <= 0x8000000000000000000000) by (
            nonlinear_arith)
                requires
                    pow16 <= 0x10000000000000000,
                    denom <= 0x800000,
            ;
            assert((pow16 as int) * (denom as int) >= 16) by (nonlinear_arith)
                requires
                    pow16 >= 16,
                    denom >= 1,
            ;
        }
        let prod: u128 = pow16 * (denom as u128);
        proof {
            lemma_div_is_ordered_by_denominator(0x10000000000000000, 2, prod as int);
            lemma_div_pos_is_pos(0x10000000000000000, prod as int);
        }
        let term: u64 = (0x10000000000000000u128 / prod) as u64;
        proof {
            assert(term as int == tail_term(d as int, mc as int, j as int));
            lemma_small_mod(term as nat, 0x10000000000000000nat);
            let hs = head_sum(d as int, j as int, d as int + 1);
            let ts = tail_sum(d as int, j as int, mc as int - 1);
            lemma_add_mod_noop(hs + ts, term as int, 0x10000000000000000);
            lemma_mod_bound(hs + ts + term as int, 0x10000000000000000);
            assert(tail_sum(d as int, j as int, mc as int) == ts + tail_term(
                d as int,
                mc as int,
                j as int,
            ));
            assert(pow(16, (mc + 1) as nat) == 16 * pow(16, mc as nat)) by {
                reveal(pow);
            }
        }
        let s: u128 = (sum as u128) + (term as u128);
        sum = (s % 0x10000000000000000u128) as u64;
        pow16 = pow16 * 16;
        mc = mc + 1;
    }
    sum
}

/// Powers of 16 by repeated squaring up to `16^16 == 2^64`.
proof fn lemma_pow16_16()
    ensures
        pow(16, 2) == 0x100,
        pow(16, 4) == 0x10000,
        pow(16, 8) == 0x100000000,
        pow(16, 16) == 0x10000000000000000,
{
    lemma_pow1(16);
    lemma_pow_adds(16, 1, 1);
    assert(pow(16, 2) * pow(16, 2) == 0x10000) by (nonlinear_arith)
        requires
            pow(16, 2) == 0x100,
    ;
    lemma_pow_adds(16, 2, 2);
    assert(pow(16, 4) * pow(16, 4) == 0x100000000) by (nonlinear_arith)
        requires
            pow(16, 4) == 0x10000,
    ;
    lemma_pow_adds(16, 4, 4);
    assert(pow(16, 8) * pow(16, 8) == 0x10000000000000000) by (nonlinear_arith)
        requires
            pow(16, 8) == 0x100000000,
    ;
    lemma_pow_adds(16, 8, 8);
}

/// The d-th hexadecimal digit of pi, counting the leading `3` as digit 0,
/// exactly as `pi_digit_spec` states it.  For a positive index the four
/// BBP partial sums for `16^(d-1) * pi` are combined as
/// `4*S1 - 2*S4 - S5 - S6`, reduced modulo 1, and the leading four bits of
/// the remaining fraction form the digit.  Adding the constant `4` (four
/// whole units, `4 * 2^64` in fixed point) before reducing keeps the
/// unsigned arithmetic from wrapping and does not change the residue.
pub fn pi(digit: u16) -> (r: u8)
    ensures
        r as int == pi_digit_spec(digit as int),
        r < 16,
{
    if digit == 0 {
        return 3;
    }
    let d = digit - 1;
    let s1 = series(d, 1);
    let s4 = series(d, 4);
    let s5 = series(d, 5);
    let s6 = series(d, 6);
    let acc: u128 = 4 * (s1 as u128) + (0x40000000000000000u128 - 2 * (s4 as u128) - (s5 as u128)
        - (s6 as u128));
    let frac: u128 = acc % 0x10000000000000000u128;
    proof {
        let x = 4 * series_spec(d as int, 1) - 2 * series_spec(d as int, 4) - series_spec(
            d as int,
            5,
        ) - series_spec(d as int, 6);
        lemma_mod_multiples_vanish(4, x, 0x10000000000000000);
        lemma_mod_bound(x, 0x10000000000000000);
        lemma_div_pos_is_pos(frac as int, 0x1000000000000000);
        lemma_div_is_ordered(frac as int, 0xffffffffffffffff, 0x1000000000000000);
    }
    (frac / 0x1000000000000000u128) as u8
}

/// One step of binary exponentiation preserves the residue
/// `r * x^e mod m`: with `h = e / 2`, squaring the base and (for odd `e`)
/// folding one factor of `x` into the accumulator leaves it unchanged.
proof fn lemma_binpow_step(r: int, x: int, e: nat, m: int)
    requires
        0 < m,
        0 < e,
    ensures
        e % 2 == 1 ==> ((r * x) % m * pow((x * x) % m, (e / 2) as nat)) % m == (r * pow(x, e))
            % m,
        e % 2 == 0 ==> (r * pow((x * x) % m, (e / 2) as nat)) % m == (r * pow(x, e)) % m,
{
    let h = (e / 2) as nat;
    lemma_pow_mod_noop(x * x, h, m);
    lemma_pow_multiplies(x, 2, h);
    assert(pow(x, 2) == x * x) by {
        vstd::arithmetic::power::lemma_pow0(x);
        assert(pow(x, 2) == x * pow(x, 1)) by {
            reveal(pow);
        }
        assert(pow(x, 1) == x * pow(x, 0)) by {
            reveal(pow);
        }
    }
    assert(pow(x * x, h) == pow(x, 2 * h));
    if e % 2 == 0 {
        assert(e == 2 * h);
        calc! {
            (==)
            (r * pow((x * x) % m, h)) % m; {
                lemma_mul_mod_noop_general(r, pow((x * x) % m, h), m);
                lemma_mul_mod_noop_general(r, pow(x * x, h), m);
            }
            (r * pow(x * x, h)) % m;
        }
    } else {
        assert(e == 2 * h + 1);
        assert(pow(x, e) == x * pow(x, (e - 1) as nat)) by {
            reveal(pow);
        }
        assert(pow(x, (e - 1) as nat) == pow(x * x, h));
        calc! {
            (==)
            ((r * x) % m * pow((x * x) % m, h)) % m; {
                lemma_mul_mod_noop_general(r * x, pow((x * x) % m, h), m);
            }
            ((r * x) * pow((x * x) % m, h)) % m; {
                lemma_mul_mod_noop_general(r * x, pow((x * x) % m, h), m);
                lemma_mul_mod_noop_general(r * x, pow(x * x, h), m);
            }
            ((r * x) * pow(x * x, h)) % m; {
                lemma_mul_is_associative(r, x, pow(x * x, h));
            }
            (r * (x * pow(x * x, h))) % m;
        }
    }
}

} // verus!
