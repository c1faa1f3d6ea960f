//! Powers of two and rounding.
use vstd::arithmetic::power2::{lemma_pow2_pos, lemma_pow2_unfold, pow2};
use vstd::prelude::*;

verus! {

/// Whether `n` is a power of two: whether halving it as long as it is even ends at one.
pub open spec fn is_pow2(n: int) -> bool
    decreases n,
{
    n == 1 || (n > 1 && n % 2 == 0 && is_pow2(n / 2))
}

/// The exponent of a power of two.
pub open spec fn log2(n: int) -> nat
    decreases n,
{
    if n <= 1 {
        0
    } else {
        log2(n / 2) + 1
    }
}

/// How many times `per` goes into `n`, counting a part as a whole.
pub open spec fn ceil_div(n: int, per: int) -> int {
    if n % per == 0 {
        n / per
    } else {
        n / per + 1
    }
}

/// The first multiple of `to` that is not below `n`.
pub open spec fn rounded_up(n: int, to: int) -> int {
    ceil_div(n, to) * to
}

/// Taking the logarithm of a power of two undoes it.
pub proof fn lemma_log2_of_pow2(e: nat)
    ensures
        is_pow2(pow2(e) as int),
        log2(pow2(e) as int) == e,
    decreases e,
{
    vstd::arithmetic::power2::lemma2_to64();
    if e > 0 {
        lemma_log2_of_pow2((e - 1) as nat);
        lemma_pow2_unfold(e);
        lemma_pow2_pos((e - 1) as nat);
    }
}

/// A power of two is two to the power of its logarithm.
pub proof fn lemma_pow2_of_log2(n: int)
    requires
        is_pow2(n),
    ensures
        pow2(log2(n)) == n,
        n >= 1,
    decreases n,
{
    vstd::arithmetic::power2::lemma2_to64();
    if n > 1 {
        lemma_pow2_of_log2(n / 2);
        lemma_pow2_unfold(log2(n));
    }
}

/// Of two powers of two the smaller divides the larger.
pub proof fn lemma_pow2_divides(a: int, b: int)
    requires
        is_pow2(a),
        is_pow2(b),
        a <= b,
    ensures
        b % a == 0,
        a * (b / a) == b,
        is_pow2(b / a),
        log2(b) == log2(a) + log2(b / a),
    decreases a,
{
    vstd::arithmetic::power2::lemma2_to64();
    if a > 1 {
        assert(b > 1);
        lemma_pow2_divides(a / 2, b / 2);
        let q = (b / 2) / (a / 2);
        assert(a == 2 * (a / 2));
        assert(b == 2 * (b / 2));
        assert(a * q == b) by (nonlinear_arith)
            requires
                a == 2 * (a / 2),
                b == 2 * (b / 2),
                (a / 2) * q == b / 2,
        ;
        vstd::arithmetic::div_mod::lemma_fundamental_div_mod_converse(b, a, q, 0);
        assert(b / a == q);
    } else {
        assert(a == 1);
        assert(b % 1 == 0 && b / 1 == b);
    }
}

/// What rounding up gives: a multiple, not below `n`, and less than one step above it.
pub proof fn lemma_rounded_up(n: int, to: int)
    requires
        to > 0,
        n >= 0,
    ensures
        n <= rounded_up(n, to) < n + to,
        rounded_up(n, to) % to == 0,
        rounded_up(n, to) / to == ceil_div(n, to),
        0 <= ceil_div(n, to),
        (ceil_div(n, to) - 1) * to < n <= ceil_div(n, to) * to,
{
    let q = n / to;
    vstd::arithmetic::div_mod::lemma_fundamental_div_mod(n, to);
    vstd::arithmetic::div_mod::lemma_mod_bound(n, to);
    vstd::arithmetic::div_mod::lemma_div_pos_is_pos(n, to);
    assert((q + 1) * to == q * to + to) by (nonlinear_arith);
    assert((q - 1) * to == q * to - to) by (nonlinear_arith);
    assert(q * to == to * q) by (nonlinear_arith);
    let c = ceil_div(n, to);
    vstd::arithmetic::div_mod::lemma_mod_multiples_basic(c, to);
    vstd::arithmetic::div_mod::lemma_div_by_multiple(c, to);
}

/// Two to the power of `e`.
pub fn power_of_two(e: u8) -> (n: u32)
    requires
        e < 32,
    ensures
        n == pow2(e as nat),
    decreases e,
{
    proof {
        vstd::arithmetic::power2::lemma2_to64();
        if e > 0 {
            lemma_pow2_unfold(e as nat);
            if e < 31 {
                vstd::arithmetic::power2::lemma_pow2_strictly_increases(e as nat, 31);
            }
        }
    }
    if e == 0 {
        1
    } else {
        2 * power_of_two(e - 1)
    }
}

/// Whether `n` is a power of two.
pub fn is_power_of_two(n: u32) -> (yes: bool)
    ensures
        yes == is_pow2(n as int),
    decreases n,
{
    if n == 0 {
        false
    } else if n == 1 {
        true
    } else {
        n % 2 == 0 && is_power_of_two(n / 2)
    }
}

/// How many times `per` goes into `n`, counting a part as a whole.
pub fn div_ceil(n: u64, per: u64) -> (q: u64)
    requires
        per > 0,
    ensures
        q == ceil_div(n as int, per as int),
{
    if n % per == 0 {
        n / per
    } else {
        proof {
            assert(n / per < u64::MAX) by (nonlinear_arith)
                requires
                    per > 0,
                    n % per != 0,
                    n <= u64::MAX,
            {
                if per == 1 {
                    assert(n % 1 == 0);
                }
                vstd::arithmetic::div_mod::lemma_fundamental_div_mod(n as int, per as int);
            }
        }
        n / per + 1
    }
}

} // verus!
