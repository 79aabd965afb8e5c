//! Fixed-point base-2 logarithm used for the information score of a guess.
//! Values carry 16 fractional bits (scale 65536), computed by the classic
//! normalize-then-square iteration, so scores are exact integers and ties
//! between guesses resolve by a well-defined total order.

use vstd::prelude::*;
use vstd::arithmetic::power2::pow2;
use vstd::arithmetic::power2::lemma_pow2_unfold;
use vstd::arithmetic::power2::lemma_pow2_pos;
use vstd::arithmetic::power2::lemma_pow2_strictly_increases;
use vstd::arithmetic::power2::lemma2_to64;
use vstd::arithmetic::div_mod::lemma_div_is_ordered;
use vstd::arithmetic::div_mod::lemma_div_multiples_vanish;
use vstd::arithmetic::mul::lemma_mul_inequality;
use vstd::arithmetic::mul::lemma_mul_strict_upper_bound;

verus! {

/// The number of integer bits a value in [1, 65535] has after its leading
/// one: the floor of its base-2 logarithm.
pub open spec fn floor_log2(n: int) -> int
    decreases n,
{
    if n < 2 {
        0
    } else {
        1 + floor_log2(n / 2)
    }
}

/// The 16 fractional bits extracted from a normalized mantissa in
/// [65536, 131072) by repeated squaring: each round squares the mantissa,
/// emits a one bit and renormalizes when it reaches 2, else emits a zero bit.
pub open spec fn frac_part(m: int, rounds: nat) -> int
    decreases rounds,
{
    if rounds == 0 {
        0
    } else {
        let sq = (m * m) / 65536;
        if sq >= 131072 {
            pow2((rounds - 1) as nat) + frac_part(sq / 2, (rounds - 1) as nat)
        } else {
            frac_part(sq, (rounds - 1) as nat)
        }
    }
}

/// The fixed-point base-2 logarithm at scale 65536, and 0 at 0 so that an
/// empty histogram bucket contributes nothing to a score.
pub open spec fn log2_fixed_spec(n: int) -> int {
    if n <= 1 {
        0
    } else {
        floor_log2(n) * 65536 + frac_part(n * 65536 / (pow2(floor_log2(n) as nat) as int), 16)
    }
}

pub proof fn lemma_floor_log2_bounds(n: int)
    requires
        n >= 1,
    ensures
        0 <= floor_log2(n),
        pow2(floor_log2(n) as nat) <= n < pow2((floor_log2(n) + 1) as nat),
    decreases n,
{
    if n < 2 {
        lemma2_to64();
    } else {
        lemma_floor_log2_bounds(n / 2);
        let k = floor_log2(n / 2);
        assert(pow2((k + 1) as nat) == 2 * pow2(k as nat)) by {
            lemma_pow2_unfold((k + 1) as nat);
        }
        assert(pow2((k + 2) as nat) == 2 * pow2((k + 1) as nat)) by {
            lemma_pow2_unfold((k + 2) as nat);
        }
    }
}

pub proof fn lemma_frac_part_bounds(m: int, rounds: nat)
    ensures
        0 <= frac_part(m, rounds) < pow2(rounds),
    decreases rounds,
{
    lemma_pow2_pos(rounds);
    if rounds > 0 {
        let sq = (m * m) / 65536;
        lemma_frac_part_bounds(sq / 2, (rounds - 1) as nat);
        lemma_frac_part_bounds(sq, (rounds - 1) as nat);
        assert(pow2(rounds) == 2 * pow2((rounds - 1) as nat)) by {
            lemma_pow2_unfold(rounds);
        }
    }
}

/// The fixed-point logarithm of any count up to 65535 fits below 16 scale
/// units.
pub proof fn lemma_log2_fixed_bounds(n: int)
    requires
        n <= 0xFFFF,
    ensures
        0 <= log2_fixed_spec(n) < 16 * 65536,
{
    if n > 1 {
        let k = floor_log2(n);
        lemma_floor_log2_bounds(n);
        lemma2_to64();
        if k >= 16 {
            lemma_pow2_strictly_increases(16, k as nat);
            assert(false);
        }
        lemma_frac_part_bounds(n * 65536 / (pow2(k as nat) as int), 16);
        assert(frac_part(n * 65536 / (pow2(k as nat) as int), 16) < 65536);
        assert(k * 65536 <= 15 * 65536) by {
            lemma_mul_inequality(k, 15, 65536);
        }
    }
}

/// The floor of the base-2 logarithm is never negative.
pub proof fn lemma_floor_log2_nonneg(n: int)
    ensures
        floor_log2(n) >= 0,
    decreases n,
{
    if n >= 2 {
        lemma_floor_log2_nonneg(n / 2);
    }
}

/// The squaring iteration emits bits monotonically: a larger mantissa never
/// yields a smaller fraction.
pub proof fn lemma_frac_part_mono(m1: int, m2: int, rounds: nat)
    requires
        65536 <= m1 <= m2 < 131072,
    ensures
        frac_part(m1, rounds) <= frac_part(m2, rounds),
    decreases rounds,
{
    if rounds > 0 {
        let r1 = (rounds - 1) as nat;
        let s1 = (m1 * m1) / 65536;
        let s2 = (m2 * m2) / 65536;
        assert(m1 * m1 <= m2 * m2 && 65536 * 65536 <= m1 * m1 && m2 * m2 < 17179869184)
            by (nonlinear_arith)
            requires
                65536 <= m1 <= m2 < 131072,
        ;
        lemma_div_is_ordered(m1 * m1, m2 * m2, 65536);
        lemma_div_is_ordered(65536int * 65536, m1 * m1, 65536);
        lemma_div_multiples_vanish(65536, 65536);
        vstd::arithmetic::div_mod::lemma_multiply_divide_lt(m2 * m2, 65536, 262144);
        assert(65536 <= s1 <= s2 < 262144);
        if s1 >= 131072 && s2 >= 131072 {
            lemma_div_is_ordered(s1, s2, 2);
            lemma_frac_part_mono(s1 / 2, s2 / 2, r1);
        } else if s1 < 131072 && s2 < 131072 {
            lemma_frac_part_mono(s1, s2, r1);
        } else {
            lemma_frac_part_bounds(s1, r1);
            lemma_frac_part_bounds(s2 / 2, r1);
        }
    }
}

/// A larger value never has a smaller floor logarithm.
pub proof fn lemma_floor_log2_mono(a: int, b: int)
    requires
        1 <= a <= b,
    ensures
        floor_log2(a) <= floor_log2(b),
{
    lemma_floor_log2_bounds(a);
    lemma_floor_log2_bounds(b);
    if floor_log2(a) > floor_log2(b) {
        lemma_pow2_strictly_increases((floor_log2(b) + 1) as nat, floor_log2(a) as nat);
        assert(false);
    }
}

/// The normalized mantissa of a value sits in [65536, 131072).
proof fn lemma_mantissa_range(n: int)
    requires
        2 <= n <= 0xFFFF,
    ensures
        65536 <= n * 65536 / (pow2(floor_log2(n) as nat) as int) < 131072,
{
    let k = floor_log2(n);
    let pk = pow2(k as nat) as int;
    let np = n * 65536;
    lemma_floor_log2_bounds(n);
    lemma_pow2_pos(k as nat);
    assert(pk * 65536 <= np) by {
        lemma_mul_inequality(pk, n, 65536);
    }
    lemma_div_is_ordered(pk * 65536, np, pk);
    lemma_div_multiples_vanish(65536, pk);
    assert(np <= (pow2((k + 1) as nat) - 1) * 65536) by {
        lemma_mul_inequality(n, pow2((k + 1) as nat) - 1, 65536);
    }
    assert((pow2((k + 1) as nat) - 1) * 65536 == pk * 131072 - 65536) by {
        lemma_pow2_unfold((k + 1) as nat);
    }
    vstd::arithmetic::div_mod::lemma_multiply_divide_lt(np, pk, 131072);
}

/// The fixed-point logarithm is monotone on counts up to 65535.
pub proof fn lemma_log2_fixed_mono(a: int, b: int)
    requires
        0 <= a <= b <= 0xFFFF,
    ensures
        log2_fixed_spec(a) <= log2_fixed_spec(b),
{
    lemma_log2_fixed_bounds(a);
    lemma_log2_fixed_bounds(b);
    if a > 1 {
        let ka = floor_log2(a);
        let kb = floor_log2(b);
        lemma_floor_log2_mono(a, b);
        lemma_floor_log2_bounds(a);
        lemma_floor_log2_bounds(b);
        lemma_frac_part_bounds(a * 65536 / (pow2(ka as nat) as int), 16);
        lemma_frac_part_bounds(b * 65536 / (pow2(kb as nat) as int), 16);
        lemma2_to64();
        if ka == kb {
            lemma_mantissa_range(a);
            lemma_mantissa_range(b);
            assert(a * 65536 <= b * 65536) by {
                lemma_mul_inequality(a, b, 65536);
            }
            lemma_div_is_ordered(a * 65536, b * 65536, pow2(ka as nat) as int);
            lemma_frac_part_mono(
                a * 65536 / (pow2(ka as nat) as int),
                b * 65536 / (pow2(kb as nat) as int),
                16,
            );
        } else {
            assert(ka * 65536 + 65536 <= kb * 65536) by (nonlinear_arith)
                requires
                    ka < kb,
            ;
        }
    }
}

/// Halving a count drops its fixed-point logarithm by at least one unit.
pub proof fn lemma_log2_fixed_gap(a: int, b: int)
    requires
        0 <= a,
        2 <= b <= 0xFFFF,
        a <= b / 2,
    ensures
        log2_fixed_spec(a) + 1 <= log2_fixed_spec(b),
{
    lemma_log2_fixed_bounds(a);
    lemma2_to64();
    let kb = floor_log2(b);
    lemma_floor_log2_bounds(b);
    lemma_frac_part_bounds(b * 65536 / (pow2(kb as nat) as int), 16);
    if a <= 1 {
        // b >= 2 puts at least one whole bit into the logarithm of b.
        assert(kb >= 1);
        assert(kb * 65536 >= 65536) by (nonlinear_arith)
            requires
                kb >= 1,
        ;
    } else {
        let ka = floor_log2(a);
        lemma_floor_log2_mono(a, b / 2);
        assert(floor_log2(b) == 1 + floor_log2(b / 2));
        lemma_frac_part_bounds(a * 65536 / (pow2(ka as nat) as int), 16);
        assert(ka * 65536 + 65536 <= kb * 65536) by (nonlinear_arith)
            requires
                ka < kb,
        ;
    }
}

/// Computes the fixed-point base-2 logarithm of `n` at scale 65536.
pub fn log2_fixed(n: u32) -> (r: u64)
    requires
        n <= 0xFFFF,
    ensures
        r == log2_fixed_spec(n as int),
        r < 16 * 65536,
{
    proof {
        lemma_log2_fixed_bounds(n as int);
    }
    if n <= 1 {
        return 0;
    }
    proof {
        lemma_floor_log2_bounds(n as int);
        lemma2_to64();
        if floor_log2(n as int) >= 16 {
            lemma_pow2_strictly_increases(16, floor_log2(n as int) as nat);
            assert(false);
        }
    }
    let mut v: u32 = n;
    let mut k: u32 = 0;
    while v >= 2
        invariant
            1 <= v <= n,
            floor_log2(n as int) == k + floor_log2(v as int),
            floor_log2(n as int) <= 15,
            k <= 15,
        decreases v,
    {
        v = v / 2;
        k = k + 1;
        proof {
            lemma_floor_log2_nonneg(v as int);
        }
    }
    proof {
        assert(v == 1);
        assert(k == floor_log2(n as int));
    }
    let p = pow2_exec(k);
    let m0: u64 = (n as u64) * 65536 / p;
    proof {
        let np = (n as int) * 65536;
        let pk = pow2(k as nat) as int;
        lemma_pow2_pos(k as nat);
        assert(pk * 65536 <= np) by {
            lemma_mul_inequality(pk, n as int, 65536);
        }
        assert(65536 <= m0) by {
            lemma_div_is_ordered(pk * 65536, np, pk);
            lemma_div_multiples_vanish(65536, pk);
        }
        assert(m0 < 131072) by {
            assert(n as int <= pow2((k + 1) as nat) - 1);
            assert(np <= (pow2((k + 1) as nat) - 1) * 65536) by {
                lemma_mul_inequality(n as int, pow2((k + 1) as nat) - 1, 65536);
            }
            assert((pow2((k + 1) as nat) - 1) * 65536 == pk * 131072 - 65536) by {
                lemma_pow2_unfold((k + 1) as nat);
            }
            assert(np < pk * 131072);
            vstd::arithmetic::div_mod::lemma_multiply_divide_lt(np, pk, 131072);
        }
    }
    proof {
        lemma_frac_part_bounds(m0 as int, 16);
        lemma2_to64();
    }
    let mut m: u64 = m0;
    let mut f: u64 = 0;
    let mut w: u64 = 32768;
    for r in 0..16u32
        invariant
            65536 <= m < 131072,
            r < 16 ==> w as int == pow2((15 - r) as nat),
            frac_part(m0 as int, 16) == f + frac_part(m as int, (16 - r) as nat),
            frac_part(m0 as int, 16) < 65536,
    {
        proof {
            lemma2_to64();
            lemma_frac_part_bounds(m as int, (16 - r) as nat);
            lemma_mul_strict_upper_bound(m as int, 131072, m as int, 131072);
        }
        let sq: u64 = m * m / 65536;
        proof {
            assert(65536 <= sq < 262144) by {
                assert((m as int) * (m as int) >= 65536 * 65536) by {
                    lemma_mul_inequality(65536, m as int, m as int);
                    lemma_mul_inequality(65536, m as int, 65536);
                }
                assert((m as int) * (m as int) < 17179869184) by {
                    vstd::arithmetic::mul::lemma_mul_strict_upper_bound(
                        m as int,
                        131072,
                        m as int,
                        131072,
                    );
                }
                lemma_div_is_ordered(65536int * 65536, (m as int) * (m as int), 65536);
                lemma_div_multiples_vanish(65536, 65536);
                assert(((m as int) * (m as int)) / 65536 < 262144) by {
                    vstd::arithmetic::div_mod::lemma_multiply_divide_lt(
                        (m as int) * (m as int),
                        65536,
                        262144,
                    );
                }
            }
            assert(frac_part(m as int, (16 - r) as nat) == if sq as int >= 131072 {
                pow2((15 - r) as nat) + frac_part(sq as int / 2, (15 - r) as nat)
            } else {
                frac_part(sq as int, (15 - r) as nat)
            });
        }
        if sq >= 131072 {
            proof {
                lemma_frac_part_bounds(sq as int / 2, (15 - r) as nat);
            }
            f = f + w;
            m = sq / 2;
        } else {
            m = sq;
        }
        proof {
            if r < 15 {
                assert(pow2((15 - r) as nat) == 2 * pow2((14 - r) as nat)) by {
                    lemma_pow2_unfold((15 - r) as nat);
                }
            }
        }
        w = w / 2;
    }
    assert(frac_part(m as int, 0) == 0);
    proof {
        lemma_mul_inequality(k as int, 15, 65536);
    }
    let res: u64 = (k as u64) * 65536 + f;
    proof {
        assert(res == log2_fixed_spec(n as int));
    }
    res
}

/// Computes `pow2(e)` for the small exponents the logarithm needs.
fn pow2_exec(e: u32) -> (r: u64)
    requires
        e <= 16,
    ensures
        r == pow2(e as nat),
{
    proof {
        lemma2_to64();
    }
    let mut r: u64 = 1;
    for i in 0..e
        invariant
            e <= 16,
            r == pow2(i as nat),
            r <= 65536,
    {
        proof {
            lemma_pow2_unfold((i + 1) as nat);
            lemma2_to64();
            if i + 1 < 16 {
                lemma_pow2_strictly_increases((i + 1) as nat, 16);
            }
        }
        r = r * 2;
    }
    r
}

} // verus!
