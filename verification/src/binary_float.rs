//! An exact integer model of the IEEE-754 binary arithmetic that the crate's
//! formulas are defined by (conversions from integers, division, scaling by an
//! integer, and the roundings that turn a result back into an integer or into
//! decimal text).  A float with a `p`-bit significand is modelled as a pair
//! `(m, e)` standing for `m * 2^e`, normal when `m == 0` or
//! `2^(p-1) <= m < 2^p`.  Every operation rounds to nearest, ties to even, as
//! IEEE-754 does; the operands met here never leave the normal range.
use vstd::arithmetic::power2::{
    lemma_pow2_adds, lemma_pow2_pos, lemma_pow2_strictly_increases, lemma_pow2_unfold, pow2,
};
use vstd::prelude::*;

verus! {

/// `n / d` rounded to the nearest integer, ties to the even one.
pub open spec fn round_half_even(n: nat, d: nat) -> nat
    recommends
        d > 0,
{
    let q = n / d;
    let r = n % d;
    if 2 * r < d {
        q
    } else if 2 * r > d {
        q + 1
    } else if q % 2 == 0 {
        q
    } else {
        q + 1
    }
}

/// Number of binary digits of `n` (0 for 0).
pub open spec fn bit_len(n: nat) -> nat
    decreases n,
{
    if n == 0 {
        0
    } else {
        1 + bit_len(n / 2)
    }
}

/// A float in normal form for a `p`-bit significand.
pub open spec fn is_normal(f: (nat, int), p: nat) -> bool {
    f.0 == 0 || (pow2((p - 1) as nat) <= f.0 && f.0 < pow2(p))
}

/// Brings a significand that rounding carried up to `2^p` back into range.
pub open spec fn carry(m: nat, e: int, p: nat) -> (nat, int) {
    if m == pow2(p) {
        (pow2((p - 1) as nat), e + 1)
    } else {
        (m, e)
    }
}

/// The float nearest to the integer `n` (the `as` conversion of an integer).
pub open spec fn float_of_nat(n: nat, p: nat) -> (nat, int) {
    if n == 0 {
        (0, 0)
    } else if bit_len(n) <= p {
        (n * pow2((p - bit_len(n)) as nat), -((p - bit_len(n)) as int))
    } else {
        let k = (bit_len(n) - p) as nat;
        carry(round_half_even(n, pow2(k)), k as int, p)
    }
}

/// The float nearest to the quotient `a / b` of two normal floats, `b` nonzero.
pub open spec fn float_div(a: (nat, int), b: (nat, int), p: nat) -> (nat, int) {
    if a.0 == 0 {
        (0, 0)
    } else {
        let s: nat = if a.0 >= b.0 {
            (p - 1) as nat
        } else {
            p
        };
        carry(round_half_even(a.0 * pow2(s), b.0), a.1 - b.1 - s, p)
    }
}

/// The float nearest to the product of the float `a` and the integer `k`.
pub open spec fn float_mul_nat(a: (nat, int), k: nat, p: nat) -> (nat, int) {
    let f = float_of_nat(a.0 * k, p);
    if f.0 == 0 {
        (0, 0)
    } else {
        (f.0, f.1 + a.1)
    }
}

/// `floor` of a nonnegative float.
pub open spec fn float_floor(f: (nat, int)) -> nat {
    if f.1 >= 0 {
        f.0 * pow2(f.1 as nat)
    } else {
        f.0 / pow2((-f.1) as nat)
    }
}

/// `round` (halves away from zero) of a nonnegative float.
pub open spec fn float_round(f: (nat, int)) -> nat {
    if f.1 >= 0 {
        f.0 * pow2(f.1 as nat)
    } else {
        (2 * f.0 + pow2((-f.1) as nat)) / (2 * pow2((-f.1) as nat))
    }
}

/// The nonnegative float times 100, rounded to the nearest integer with ties
/// to even: the digits that a two-decimal rendering of the exact value shows.
pub open spec fn float_hundredths(f: (nat, int)) -> nat {
    if f.1 >= 0 {
        100 * f.0 * pow2(f.1 as nat)
    } else {
        round_half_even(100 * f.0, pow2((-f.1) as nat))
    }
}

/// Concrete powers of two used for machine bounds.
pub proof fn lemma_pow2_table()
    ensures
        pow2(0) == 1,
        pow2(1) == 2,
        pow2(24) == 0x100_0000,
        pow2(53) == 0x20_0000_0000_0000,
        pow2(60) == 0x1000_0000_0000_0000,
        pow2(64) == 0x1_0000_0000_0000_0000,
        pow2(127) == 0x8000_0000_0000_0000_0000_0000_0000_0000,
{
    vstd::arithmetic::power2::lemma2_to64();
    vstd::arithmetic::power2::lemma2_to64_rest();
    lemma_pow2_adds(64, 63);
}

pub proof fn lemma_bit_len_bounds(n: nat)
    requires
        n > 0,
    ensures
        bit_len(n) >= 1,
        pow2((bit_len(n) - 1) as nat) <= n < pow2(bit_len(n)),
    decreases n,
{
    if n / 2 == 0 {
        assert(n == 1);
        assert(bit_len(0) == 0);
        assert(bit_len(1) == 1);
        lemma_pow2_unfold(1);
        lemma_pow2_table();
    } else {
        lemma_bit_len_bounds(n / 2);
        let b = bit_len(n / 2);
        assert(bit_len(n) == b + 1);
        lemma_pow2_unfold(b);
        lemma_pow2_unfold(b + 1);
        assert(pow2(b) == 2 * pow2((b - 1) as nat));
        assert(pow2(b + 1) == 2 * pow2(b));
    }
}

pub proof fn lemma_bit_len_le(n: nat, k: nat)
    requires
        n < pow2(k),
    ensures
        bit_len(n) <= k,
{
    if n > 0 {
        lemma_bit_len_bounds(n);
        if bit_len(n) > k {
            lemma_pow2_increases_le(k, (bit_len(n) - 1) as nat);
        }
    }
}

pub proof fn lemma_pow2_increases_le(a: nat, b: nat)
    requires
        a <= b,
    ensures
        pow2(a) <= pow2(b),
{
    if a < b {
        lemma_pow2_strictly_increases(a, b);
    }
}

proof fn lemma_div_range(n: nat, d: nat, lo: nat, hi: nat)
    requires
        d > 0,
        lo * d <= n,
        n < hi * d,
    ensures
        lo <= n / d < hi,
{
    let q = n / d;
    let r = n % d;
    assert(n == d * q + r && 0 <= r < d) by {
        vstd::arithmetic::div_mod::lemma_fundamental_div_mod(n as int, d as int);
    }
    assert(lo <= q) by (nonlinear_arith)
        requires
            lo * d <= n,
            n == d * q + r,
            r < d,
            d > 0,
    ;
    assert(q < hi) by (nonlinear_arith)
        requires
            n < hi * d,
            n == d * q + r,
            r >= 0,
            d > 0,
    ;
}

/// Rounding a quotient that lies in `[lo, hi)` lands in `[lo, hi]`.
pub proof fn lemma_round_half_even_range(n: nat, d: nat, lo: nat, hi: nat)
    requires
        d > 0,
        lo * d <= n,
        n < hi * d,
    ensures
        lo <= round_half_even(n, d) <= hi,
{
    lemma_div_range(n, d, lo, hi);
}

pub proof fn lemma_float_of_nat_normal(n: nat, p: nat)
    requires
        p >= 2,
    ensures
        is_normal(float_of_nat(n, p), p),
        n > 0 ==> float_of_nat(n, p).0 > 0,
{
    lemma_pow2_pos((p - 1) as nat);
    if n > 0 {
        lemma_bit_len_bounds(n);
        let b = bit_len(n);
        if b <= p {
            let s = (p - b) as nat;
            lemma_pow2_adds((b - 1) as nat, s);
            lemma_pow2_adds(b, s);
            assert(((b - 1) as nat + s) as nat == (p - 1) as nat);
            assert((b + s) as nat == p);
            lemma_pow2_pos(s);
            assert(pow2((b - 1) as nat) * pow2(s) <= n * pow2(s)) by (nonlinear_arith)
                requires
                    pow2((b - 1) as nat) <= n,
            ;
            assert(n * pow2(s) < pow2(b) * pow2(s)) by (nonlinear_arith)
                requires
                    n < pow2(b),
                    pow2(s) > 0,
            ;
        } else {
            let k = (b - p) as nat;
            lemma_pow2_pos(k);
            lemma_pow2_adds((p - 1) as nat, k);
            lemma_pow2_adds(p, k);
            assert(((p - 1) as nat + k) as nat == (b - 1) as nat);
            assert((p + k) as nat == b);
            lemma_round_half_even_range(n, pow2(k), pow2((p - 1) as nat), pow2(p));
            lemma_pow2_unfold(p);
        }
    }
}

pub proof fn lemma_float_div_normal(a: (nat, int), b: (nat, int), p: nat)
    requires
        p >= 2,
        is_normal(a, p),
        is_normal(b, p),
        b.0 > 0,
    ensures
        is_normal(float_div(a, b, p), p),
        a.0 > 0 ==> float_div(a, b, p).0 > 0,
{
    if a.0 > 0 {
        let h = pow2((p - 1) as nat);
        lemma_pow2_unfold(p);
        assert(pow2(p) == 2 * h);
        lemma_pow2_pos((p - 1) as nat);
        if a.0 >= b.0 {
            assert(h * b.0 <= a.0 * h) by (nonlinear_arith)
                requires
                    a.0 >= b.0,
                    h > 0,
            ;
            assert(a.0 * h < (2 * h) * b.0) by (nonlinear_arith)
                requires
                    a.0 < 2 * h,
                    b.0 >= h,
                    h > 0,
            ;
            lemma_round_half_even_range(a.0 * h, b.0, h, 2 * h);
        } else {
            assert(h * b.0 <= a.0 * (2 * h)) by (nonlinear_arith)
                requires
                    a.0 >= h,
                    b.0 < 2 * h,
                    h > 0,
            ;
            assert(a.0 * (2 * h) < (2 * h) * b.0) by (nonlinear_arith)
                requires
                    a.0 < b.0,
                    h > 0,
            ;
            lemma_round_half_even_range(a.0 * (2 * h), b.0, h, 2 * h);
        }
    }
}

/// `2^k` for a small `k`.
pub fn pow2_u128(k: u32) -> (r: u128)
    requires
        k < 128,
    ensures
        r as nat == pow2(k as nat),
{
    let mut r: u128 = 1;
    let mut i: u32 = 0;
    proof {
        lemma_pow2_table();
    }
    while i < k
        invariant
            i <= k < 128,
            r as nat == pow2(i as nat),
        decreases k - i,
    {
        proof {
            lemma_pow2_unfold((i + 1) as nat);
            lemma_pow2_increases_le((i + 1) as nat, 127);
            lemma_pow2_table();
        }
        r = r * 2;
        i = i + 1;
    }
    r
}

fn round_half_even_u128(n: u128, d: u128) -> (r: u128)
    requires
        0 < d < 0x8000_0000_0000_0000_0000_0000_0000_0000,
        n / d < 0xffff_ffff_ffff_ffff_ffff_ffff_ffff_ffff,
    ensures
        r as nat == round_half_even(n as nat, d as nat),
{
    let q = n / d;
    let rem = n % d;
    if 2 * rem < d {
        q
    } else if 2 * rem > d {
        q + 1
    } else if q % 2 == 0 {
        q
    } else {
        q + 1
    }
}

fn bit_len_u64(n: u64) -> (r: u32)
    ensures
        r as nat == bit_len(n as nat),
        r <= 64,
{
    let mut x = n;
    let mut i: u32 = 0;
    proof {
        lemma_pow2_table();
        lemma_bit_len_le(n as nat, 64);
    }
    while x > 0
        invariant
            bit_len(n as nat) == i + bit_len(x as nat),
            bit_len(n as nat) <= 64,
        decreases x,
    {
        x = x / 2;
        i = i + 1;
    }
    i
}

/// The float nearest to `n`, with a `p`-bit significand.
pub fn float_of_u64(n: u64, p: u32) -> (r: (u64, i32))
    requires
        2 <= p <= 60,
    ensures
        (r.0 as nat, r.1 as int) == float_of_nat(n as nat, p as nat),
        is_normal(float_of_nat(n as nat, p as nat), p as nat),
        -(p as int) < r.1 <= 64,
        n > 0 ==> r.1 <= bit_len(n as nat) as int - p as int + 1,
        n > 0 ==> r.0 > 0,
{
    proof {
        lemma_float_of_nat_normal(n as nat, p as nat);
        lemma_pow2_increases_le(p as nat, 60);
        lemma_pow2_table();
    }
    if n == 0 {
        return (0, 0);
    }
    let b = bit_len_u64(n);
    if b <= p {
        let s = p - b;
        let f = pow2_u128(s);
        proof {
            lemma_bit_len_bounds(n as nat);
        }
        let m = (n as u128) * f;
        (m as u64, -(s as i32))
    } else {
        let k = b - p;
        let d = pow2_u128(k);
        proof {
            lemma_pow2_pos(k as nat);
            lemma_bit_len_bounds(n as nat);
            lemma_pow2_increases_le(k as nat, 64);
            lemma_pow2_table();
            assert((n as nat) / (d as nat) <= n as nat) by (nonlinear_arith)
                requires
                    d >= 1,
            ;
        }
        let m0 = round_half_even_u128(n as u128, d);
        let top = pow2_u128(p);
        if m0 == top {
            let h = pow2_u128(p - 1);
            (h as u64, (k as i32) + 1)
        } else {
            (m0 as u64, k as i32)
        }
    }
}

/// The float nearest to the quotient of two normal floats.
pub fn float_div_exec(a: (u64, i32), b: (u64, i32), p: u32) -> (r: (u64, i32))
    requires
        2 <= p <= 53,
        is_normal((a.0 as nat, a.1 as int), p as nat),
        is_normal((b.0 as nat, b.1 as int), p as nat),
        b.0 > 0,
        -1000 <= a.1 <= 1000,
        -1000 <= b.1 <= 1000,
    ensures
        (r.0 as nat, r.1 as int) == float_div(
            (a.0 as nat, a.1 as int),
            (b.0 as nat, b.1 as int),
            p as nat,
        ),
        is_normal((r.0 as nat, r.1 as int), p as nat),
        a.0 > 0 ==> r.0 > 0,
        a.0 > 0 ==> a.1 - b.1 - (p as int) <= r.1 <= a.1 - b.1 - (p as int) + 2,
{
    proof {
        lemma_float_div_normal((a.0 as nat, a.1 as int), (b.0 as nat, b.1 as int), p as nat);
        lemma_pow2_increases_le(p as nat, 53);
        lemma_pow2_table();
    }
    if a.0 == 0 {
        return (0, 0);
    }
    let s: u32 = if a.0 >= b.0 {
        p - 1
    } else {
        p
    };
    let f = pow2_u128(s);
    proof {
        lemma_pow2_increases_le(s as nat, 53);
        assert((a.0 as nat) * (f as nat) <= 0x20_0000_0000_0000 * 0x20_0000_0000_0000)
            by (nonlinear_arith)
            requires
                a.0 < 0x20_0000_0000_0000,
                f <= 0x20_0000_0000_0000,
        ;
    }
    let num = (a.0 as u128) * f;
    proof {
        assert((num as nat) / (b.0 as nat) <= num as nat) by (nonlinear_arith)
            requires
                b.0 >= 1,
        ;
    }
    let m0 = round_half_even_u128(num, b.0 as u128);
    let top = pow2_u128(p);
    let e = a.1 - b.1 - (s as i32);
    if m0 == top {
        let h = pow2_u128(p - 1);
        (h as u64, e + 1)
    } else {
        (m0 as u64, e)
    }
}

/// The float nearest to the product of the float `a` and the integer `k`.
pub fn float_mul_u64(a: (u64, i32), k: u64, p: u32) -> (r: (u64, i32))
    requires
        2 <= p <= 60,
        (a.0 as nat) * (k as nat) <= u64::MAX,
        -1000 <= a.1 <= 1000,
    ensures
        (r.0 as nat, r.1 as int) == float_mul_nat((a.0 as nat, a.1 as int), k as nat, p as nat),
        is_normal((r.0 as nat, r.1 as int), p as nat),
        -1100 <= r.1 <= 1100,
{
    let prod = a.0 * k;
    let f = float_of_u64(prod, p);
    if f.0 == 0 {
        (0, 0)
    } else {
        (f.0, f.1 + a.1)
    }
}

/// `min(floor(f), cap)` for a nonnegative float.
pub fn float_floor_capped(f: (u64, i32), cap: u64) -> (r: u64)
    requires
        f.0 < 0x1000_0000_0000_0000,
    ensures
        r as nat == if float_floor((f.0 as nat, f.1 as int)) <= cap {
            float_floor((f.0 as nat, f.1 as int))
        } else {
            cap as nat
        },
{
    proof {
        lemma_pow2_table();
    }
    if f.0 == 0 {
        proof {
            if f.1 >= 0 {
                assert(0 * pow2(f.1 as nat) == 0);
            } else {
                lemma_pow2_pos((-f.1) as nat);
                assert(0nat / pow2((-f.1) as nat) == 0) by (nonlinear_arith)
                    requires pow2((-f.1) as nat) > 0;
            }
        }
        return 0;
    }
    if f.1 >= 0 {
        if f.1 > 64 {
            proof {
                lemma_pow2_increases_le(64, f.1 as nat);
                assert((f.0 as nat) * pow2(f.1 as nat) >= pow2(64)) by (nonlinear_arith)
                    requires f.0 >= 1, pow2(f.1 as nat) >= pow2(64);
            }
            return cap;
        }
        let w = pow2_u128(f.1 as u32);
        proof {
            lemma_pow2_increases_le(f.1 as nat, 64);
            assert((f.0 as nat) * (w as nat) <= 0x1000_0000_0000_0000 * 0x1_0000_0000_0000_0000)
                by (nonlinear_arith)
                requires f.0 < 0x1000_0000_0000_0000, w <= 0x1_0000_0000_0000_0000;
        }
        let v = (f.0 as u128) * w;
        if v <= cap as u128 {
            v as u64
        } else {
            cap
        }
    } else {
        if f.1 < -120 {
            proof {
                lemma_pow2_increases_le(120, (-f.1) as nat);
                lemma_pow2_increases_le(64, 120);
                assert((f.0 as nat) / pow2((-f.1) as nat) == 0) by (nonlinear_arith)
                    requires f.0 < 0x1000_0000_0000_0000, pow2((-f.1) as nat) >= pow2(64),
                        pow2(64) == 0x1_0000_0000_0000_0000;
            }
            return 0;
        }
        let d = pow2_u128((-f.1) as u32);
        proof {
            lemma_pow2_pos((-f.1) as nat);
            assert((f.0 as nat) / (d as nat) <= f.0 as nat) by (nonlinear_arith)
                requires d >= 1;
        }
        let v = (f.0 as u128) / d;
        if v <= cap as u128 {
            v as u64
        } else {
            cap
        }
    }
}

/// `min(round(f), cap)` for a nonnegative float, halves rounding away from zero.
pub fn float_round_capped(f: (u64, i32), cap: u64) -> (r: u64)
    requires
        f.0 < 0x1000_0000_0000_0000,
    ensures
        r as nat == if float_round((f.0 as nat, f.1 as int)) <= cap {
            float_round((f.0 as nat, f.1 as int))
        } else {
            cap as nat
        },
{
    proof {
        lemma_pow2_table();
    }
    if f.1 >= 0 {
        if f.0 == 0 {
            proof {
                assert(0 * pow2(f.1 as nat) == 0);
            }
            return 0;
        }
        if f.1 > 64 {
            proof {
                lemma_pow2_increases_le(64, f.1 as nat);
                assert((f.0 as nat) * pow2(f.1 as nat) >= pow2(64)) by (nonlinear_arith)
                    requires f.0 >= 1, pow2(f.1 as nat) >= pow2(64);
            }
            return cap;
        }
        let w = pow2_u128(f.1 as u32);
        proof {
            lemma_pow2_increases_le(f.1 as nat, 64);
            assert((f.0 as nat) * (w as nat) <= 0x1000_0000_0000_0000 * 0x1_0000_0000_0000_0000)
                by (nonlinear_arith)
                requires f.0 < 0x1000_0000_0000_0000, w <= 0x1_0000_0000_0000_0000;
        }
        let v = (f.0 as u128) * w;
        if v <= cap as u128 {
            v as u64
        } else {
            cap
        }
    } else {
        if f.1 < -120 {
            proof {
                let d = pow2((-f.1) as nat);
                lemma_pow2_increases_le(120, (-f.1) as nat);
                lemma_pow2_increases_le(64, 120);
                assert((2 * (f.0 as nat) + d) / (2 * d) == 0) by (nonlinear_arith)
                    requires f.0 < 0x1000_0000_0000_0000, d >= pow2(64),
                        pow2(64) == 0x1_0000_0000_0000_0000;
            }
            return 0;
        }
        let d = pow2_u128((-f.1) as u32);
        proof {
            lemma_pow2_pos((-f.1) as nat);
            lemma_pow2_increases_le((-f.1) as nat, 120);
            lemma_pow2_strictly_increases(120, 127);
            assert(2 * (f.0 as nat) + (d as nat) <= 2 * (d as nat) * (2 * (f.0 as nat) + (d as nat))) by (nonlinear_arith)
                requires d >= 1;
        }
        let v = (2 * (f.0 as u128) + d) / (2 * d);
        if v <= cap as u128 {
            v as u64
        } else {
            cap
        }
    }
}

/// `f * 100` rounded to an integer, ties to even.
pub fn float_hundredths_exec(f: (u64, i32)) -> (r: u128)
    requires
        f.0 < 0x1000_0000_0000_0000,
        -120 <= f.1 <= 20,
    ensures
        r as nat == float_hundredths((f.0 as nat, f.1 as int)),
{
    proof {
        lemma_pow2_table();
    }
    if f.1 >= 0 {
        let w = pow2_u128(f.1 as u32);
        proof {
            lemma_pow2_increases_le(f.1 as nat, 20);
            lemma_pow2_increases_le(20, 24);
            assert(100 * (f.0 as nat) * (w as nat) <= 100 * 0x1000_0000_0000_0000 * 0x100_0000)
                by (nonlinear_arith)
                requires f.0 < 0x1000_0000_0000_0000, w <= 0x100_0000;
        }
        100 * (f.0 as u128) * w
    } else {
        let d = pow2_u128((-f.1) as u32);
        proof {
            lemma_pow2_pos((-f.1) as nat);
            lemma_pow2_increases_le((-f.1) as nat, 120);
            lemma_pow2_strictly_increases(120, 127);
            assert((100 * (f.0 as nat)) / (d as nat) <= 100 * (f.0 as nat)) by (nonlinear_arith)
                requires d >= 1;
        }
        round_half_even_u128(100 * (f.0 as u128), d)
    }
}

/// The exact value of the float `f` scaled by `2^-e` (an integer when `e <= f.1`).
pub open spec fn scaled_to(f: (nat, int), e: int) -> nat {
    f.0 * pow2((f.1 - e) as nat)
}

/// `|q - c| < t` for the exact values of three floats.
pub open spec fn within_tolerance(q: (nat, int), c: (nat, int), t: (nat, int)) -> bool {
    let e = if q.1 <= c.1 && q.1 <= t.1 {
        q.1
    } else if c.1 <= t.1 {
        c.1
    } else {
        t.1
    };
    let a = scaled_to(q, e);
    let b = scaled_to(c, e);
    (if a >= b {
        a - b
    } else {
        b - a
    }) < scaled_to(t, e)
}

fn scaled_to_exec(f: (u64, i32), e: i32) -> (r: u128)
    requires
        f.0 < 0x100_0000,
        e <= f.1,
        f.1 - e <= 100,
    ensures
        r as nat == scaled_to((f.0 as nat, f.1 as int), e as int),
        r < 0x1000_0000_0000_0000_0000_0000_0000_0000,
{
    let w = pow2_u128((f.1 - e) as u32);
    proof {
        lemma_pow2_increases_le((f.1 - e) as nat, 100);
        assert(pow2(100) == 0x10_0000_0000_0000_0000_0000_0000) by {
            lemma_pow2_table();
            lemma_pow2_adds(64, 36);
            vstd::arithmetic::power2::lemma2_to64_rest();
        }
        assert((f.0 as nat) * (w as nat) <= 0xff_ffff * 0x10_0000_0000_0000_0000_0000_0000)
            by (nonlinear_arith)
            requires f.0 < 0x100_0000, w <= 0x10_0000_0000_0000_0000_0000_0000;
    }
    (f.0 as u128) * w
}

/// `|q - c| < t` for floats with 24-bit significands and moderate exponents.
pub fn within_tolerance_exec(q: (u64, i32), c: (u64, i32), t: (u64, i32)) -> (r: bool)
    requires
        q.0 < 0x100_0000,
        c.0 < 0x100_0000,
        t.0 < 0x100_0000,
        -64 <= q.1 <= 20,
        -64 <= c.1 <= 20,
        -64 <= t.1 <= 20,
    ensures
        r == within_tolerance(
            (q.0 as nat, q.1 as int),
            (c.0 as nat, c.1 as int),
            (t.0 as nat, t.1 as int),
        ),
{
    let e = if q.1 <= c.1 && q.1 <= t.1 {
        q.1
    } else if c.1 <= t.1 {
        c.1
    } else {
        t.1
    };
    let a = scaled_to_exec(q, e);
    let b = scaled_to_exec(c, e);
    let d = if a >= b {
        a - b
    } else {
        b - a
    };
    d < scaled_to_exec(t, e)
}

proof fn lemma_bit_len_double(x: nat)
    requires
        x > 0,
    ensures
        bit_len(2 * x) == bit_len(x) + 1,
{
    assert((2 * x) / 2 == x);
}

pub proof fn lemma_bit_len_shift(x: nat, k: nat)
    requires
        x > 0,
    ensures
        bit_len(x * pow2(k)) == bit_len(x) + k,
    decreases k,
{
    if k == 0 {
        lemma_pow2_table();
        assert(x * pow2(0) == x);
    } else {
        lemma_bit_len_shift(x, (k - 1) as nat);
        lemma_pow2_unfold(k);
        lemma_pow2_pos((k - 1) as nat);
        assert(x * pow2(k) == 2 * (x * pow2((k - 1) as nat))) by (nonlinear_arith)
            requires
                pow2(k) == 2 * pow2((k - 1) as nat),
        ;
        assert(x * pow2((k - 1) as nat) > 0) by (nonlinear_arith)
            requires
                x > 0,
                pow2((k - 1) as nat) > 0,
        ;
        lemma_bit_len_double(x * pow2((k - 1) as nat));
    }
}

pub proof fn lemma_round_half_even_exact(n: nat, d: nat)
    requires
        d > 0,
    ensures
        round_half_even(n * d, d) == n,
{
    vstd::arithmetic::div_mod::lemma_fundamental_div_mod_converse((n * d) as int, d as int, n as int, 0);
}

/// A quotient of a float by itself is exactly one, and one hundred times one
/// rounds to one hundred.
pub proof fn lemma_hundred_percent(a: (nat, int))
    requires
        a.0 > 0,
        is_normal(a, 53),
    ensures
        float_round(float_mul_nat(float_div(a, a, 53), 100, 53)) == 100,
{
    lemma_pow2_table();
    vstd::arithmetic::power2::lemma2_to64();
    vstd::arithmetic::power2::lemma2_to64_rest();
    lemma_pow2_adds(46, 6);
    lemma_pow2_adds(1, 46);
    let q = float_div(a, a, 53);
    lemma_round_half_even_exact(pow2(52), a.0);
    assert(a.0 * pow2(52) == pow2(52) * a.0) by (nonlinear_arith);
    assert(q == (pow2(52), -52int));
    let n = pow2(52) * 100;
    assert(bit_len(100) == 7) by {
        reveal_with_fuel(bit_len, 8);
    }
    lemma_bit_len_shift(100, 52);
    assert(n == 100 * pow2(52)) by (nonlinear_arith)
        requires
            n == pow2(52) * 100,
    ;
    assert(bit_len(n) == 59);
    assert(n == (100 * pow2(46)) * pow2(6)) by (nonlinear_arith)
        requires
            pow2(52) == pow2(46) * pow2(6),
            n == 100 * pow2(52),
    ;
    lemma_round_half_even_exact(100 * pow2(46), pow2(6));
    let f = float_of_nat(n, 53);
    assert(f == (100 * pow2(46), 6int));
    let v = float_mul_nat(q, 100, 53);
    assert(v == (100 * pow2(46), -46int));
    let d = pow2(46);
    assert((2 * (100 * d) + d) / (2 * d) == 100) by (nonlinear_arith)
        requires
            d > 0,
    ;
}

// ---------------------------------------------------------------- order

/// Rounding to nearest never reverses the order of two numerators.
pub proof fn lemma_round_half_even_monotone(n1: nat, n2: nat, d: nat)
    requires
        d > 0,
        n1 <= n2,
    ensures
        round_half_even(n1, d) <= round_half_even(n2, d),
{
    vstd::arithmetic::div_mod::lemma_div_is_ordered(n1 as int, n2 as int, d as int);
    vstd::arithmetic::div_mod::lemma_fundamental_div_mod(n1 as int, d as int);
    vstd::arithmetic::div_mod::lemma_fundamental_div_mod(n2 as int, d as int);
    if n1 / d == n2 / d {
        let q = n1 / d;
        assert(n1 == d * q + n1 % d);
        assert(n2 == d * q + n2 % d);
        assert(n1 % d <= n2 % d);
    }
}

/// A numerator at most `c * d` rounds to at most `c`.
pub proof fn lemma_round_half_even_at_most(n: nat, d: nat, c: nat)
    requires
        d > 0,
        n <= c * d,
    ensures
        round_half_even(n, d) <= c,
{
    lemma_round_half_even_monotone(n, c * d, d);
    assert(c * d == c * d);
    lemma_round_half_even_exact(c, d);
}

/// The float nearest to an integer grows with the integer: its exponent does
/// not drop, and at an equal exponent its significand does not drop.
pub proof fn lemma_float_of_nat_ordered(a: nat, b: nat, p: nat)
    requires
        p >= 2,
        0 < a <= b,
    ensures
        ({
            let f = float_of_nat(a, p);
            let g = float_of_nat(b, p);
            f.1 < g.1 || (f.1 == g.1 && f.0 <= g.0)
        }),
{
    lemma_bit_len_bounds(a);
    lemma_bit_len_bounds(b);
    let ba = bit_len(a);
    let bb = bit_len(b);
    lemma_bit_len_le(a, bb);
    lemma_float_of_nat_normal(a, p);
    lemma_float_of_nat_normal(b, p);
    let f = float_of_nat(a, p);
    let g = float_of_nat(b, p);
    if bb <= p {
        if ba == bb {
            let s = (p - ba) as nat;
            assert(a * pow2(s) <= b * pow2(s)) by (nonlinear_arith)
                requires
                    a <= b,
            ;
        }
    } else if ba <= p {
        assert(f.1 <= 0);
        assert(g.1 >= 1);
    } else {
        let ka = (ba - p) as nat;
        let kb = (bb - p) as nat;
        lemma_pow2_pos(ka);
        lemma_pow2_pos(kb);
        lemma_pow2_adds(p, ka);
        lemma_pow2_adds(p, kb);
        assert((p + ka) as nat == ba);
        assert((p + kb) as nat == bb);
        lemma_round_half_even_at_most(a, pow2(ka), pow2(p));
        lemma_round_half_even_at_most(b, pow2(kb), pow2(p));
        if ka < kb {
            assert(f.1 <= ka + 1);
            assert(g.1 >= kb);
        } else {
            assert(ka == kb);
            lemma_round_half_even_monotone(a, b, pow2(ka));
        }
    }
}

/// The quotient of two nonzero normal floats, the first not above the second,
/// is at most one: its significand is at most `2^-e`.
pub proof fn lemma_float_div_at_most_one(a: (nat, int), b: (nat, int), p: nat)
    requires
        p >= 2,
        is_normal(a, p),
        is_normal(b, p),
        a.0 > 0,
        b.0 > 0,
        a.1 < b.1 || (a.1 == b.1 && a.0 <= b.0),
    ensures
        float_div(a, b, p).1 < 0,
        float_div(a, b, p).0 <= pow2((-float_div(a, b, p).1) as nat),
{
    let h = pow2((p - 1) as nat);
    lemma_pow2_unfold(p);
    assert(pow2(p) == 2 * h);
    lemma_pow2_pos((p - 1) as nat);
    let q = float_div(a, b, p);
    if a.0 >= b.0 && a.1 == b.1 {
        assert(a.0 == b.0);
        assert(a.0 * h == h * a.0) by (nonlinear_arith);
        lemma_round_half_even_exact(h, a.0);
        assert(q == (h, a.1 - b.1 - (p - 1)));
        assert((-q.1) as nat == (p - 1) as nat);
    } else {
        let sh: nat = if a.0 >= b.0 {
            (p - 1) as nat
        } else {
            p
        };
        let e = a.1 - b.1 - sh;
        assert(e <= -(p as int));
        let n = a.0 * pow2(sh);
        if a.0 >= b.0 {
            assert(n <= (2 * h) * b.0) by (nonlinear_arith)
                requires
                    n == a.0 * h,
                    a.0 < 2 * h,
                    b.0 >= h,
                    h > 0,
            ;
        } else {
            assert(n <= (2 * h) * b.0) by (nonlinear_arith)
                requires
                    n == a.0 * (2 * h),
                    a.0 < b.0,
                    h > 0,
            ;
        }
        lemma_round_half_even_at_most(n, b.0, 2 * h);
        let r = round_half_even(n, b.0);
        if r == 2 * h {
            assert(q == (h, e + 1));
            lemma_pow2_increases_le((p - 1) as nat, (-(e + 1)) as nat);
        } else {
            assert(q == (r, e));
            lemma_pow2_increases_le(p, (-e) as nat);
        }
    }
}

/// A float of value at most one, times an integer `k` below `2^(p-1)`, is a
/// float of value at most `k`.
pub proof fn lemma_float_mul_at_most(q: (nat, int), k: nat, p: nat)
    requires
        p >= 2,
        q.0 > 0,
        q.1 < 0,
        q.0 <= pow2((-q.1) as nat),
        0 < k < pow2((p - 1) as nat),
    ensures
        float_mul_nat(q, k, p).0 > 0,
        float_mul_nat(q, k, p).1 < 0,
        float_mul_nat(q, k, p).0 <= k * pow2((-float_mul_nat(q, k, p).1) as nat),
{
    let j = (-q.1) as nat;
    let x = q.0 * k;
    lemma_pow2_pos(j);
    assert(x <= k * pow2(j) && x > 0) by (nonlinear_arith)
        requires
            x == q.0 * k,
            q.0 <= pow2(j),
            q.0 > 0,
            k > 0,
    ;
    lemma_float_of_nat_normal(x, p);
    lemma_bit_len_bounds(x);
    let bx = bit_len(x);
    let f = float_of_nat(x, p);
    let r = float_mul_nat(q, k, p);
    assert(r == (f.0, f.1 + q.1));
    if bx <= p {
        let s = (p - bx) as nat;
        lemma_pow2_adds(j, s);
        assert(f.0 <= k * pow2(j + s)) by (nonlinear_arith)
            requires
                f.0 == x * pow2(s),
                x <= k * pow2(j),
                pow2(j + s) == pow2(j) * pow2(s),
        ;
        assert((-(f.1 + q.1)) as nat == j + s);
    } else {
        let kk = (bx - p) as nat;
        lemma_pow2_adds((p - 1) as nat, j);
        assert(pow2((bx - 1) as nat) < pow2(((p - 1) as nat + j) as nat)) by (nonlinear_arith)
            requires
                pow2((bx - 1) as nat) <= x,
                x <= k * pow2(j),
                k < pow2((p - 1) as nat),
                pow2(j) > 0,
                pow2(((p - 1) as nat + j) as nat) == pow2((p - 1) as nat) * pow2(j),
        ;
        if bx - 1 >= p - 1 + j {
            lemma_pow2_increases_le(((p - 1) as nat + j) as nat, (bx - 1) as nat);
        }
        assert(kk < j);
        let d = (j - kk) as nat;
        lemma_pow2_adds(d, kk);
        lemma_pow2_pos(kk);
        lemma_pow2_pos(d);
        assert(x <= (k * pow2(d)) * pow2(kk)) by (nonlinear_arith)
            requires
                x <= k * pow2(j),
                pow2(j) == pow2(d) * pow2(kk),
        ;
        lemma_round_half_even_at_most(x, pow2(kk), k * pow2(d));
        let m = round_half_even(x, pow2(kk));
        if m == pow2(p) {
            lemma_pow2_unfold(p);
            if d <= 1 {
                lemma_pow2_increases_le(d, 1);
                lemma_pow2_table();
                assert(k * pow2(d) <= k * 2) by (nonlinear_arith)
                    requires
                        pow2(d) <= 2,
                ;
                assert(false);
            }
            lemma_pow2_unfold(d);
            assert(f == (pow2((p - 1) as nat), (kk + 1) as int));
            assert((-(f.1 + q.1)) as nat == (d - 1) as nat);
            assert(pow2((p - 1) as nat) <= k * pow2((d - 1) as nat)) by (nonlinear_arith)
                requires
                    2 * pow2((p - 1) as nat) <= k * pow2(d),
                    pow2(d) == 2 * pow2((d - 1) as nat),
            ;
        } else {
            assert(f == (m, kk as int));
        }
    }
}

/// Rounding a nonnegative float of value at most `k` gives at most `k`.
pub proof fn lemma_float_round_at_most(f: (nat, int), k: nat)
    requires
        f.1 < 0,
        f.0 <= k * pow2((-f.1) as nat),
    ensures
        float_round(f) <= k,
{
    let d = pow2((-f.1) as nat);
    lemma_pow2_pos((-f.1) as nat);
    assert(2 * f.0 + d < (k + 1) * (2 * d)) by (nonlinear_arith)
        requires
            f.0 <= k * d,
            d > 0,
    ;
    lemma_div_range(2 * f.0 + d, 2 * d, 0, k + 1);
}

/// One hundred times the `f64` quotient of `a` by `b`, for `0 <= a <= b`,
/// rounds to at most one hundred.
pub proof fn lemma_hundredfold_ratio_at_most_hundred(a: nat, b: nat)
    requires
        a <= b,
        b > 0,
    ensures
        float_round(
            float_mul_nat(float_div(float_of_nat(a, 53), float_of_nat(b, 53), 53), 100, 53),
        ) <= 100,
{
    lemma_pow2_table();
    if a == 0 {
        assert(float_of_nat(0, 53) == (0nat, 0int));
    } else {
        let fa = float_of_nat(a, 53);
        let fb = float_of_nat(b, 53);
        lemma_float_of_nat_normal(a, 53);
        lemma_float_of_nat_normal(b, 53);
        lemma_float_of_nat_ordered(a, b, 53);
        lemma_float_div_at_most_one(fa, fb, 53);
        lemma_float_div_normal(fa, fb, 53);
        let q = float_div(fa, fb, 53);
        lemma_pow2_unfold(53);
        lemma_float_mul_at_most(q, 100, 53);
        lemma_float_round_at_most(float_mul_nat(q, 100, 53), 100);
    }
}

} // verus!
