//! Exact integer model of the IEEE 754 binary64 arithmetic the report's
//! durations and percentages go through, and of fixed-precision decimal
//! rendering of a binary64 value.
//!
//! A finite positive binary64 value is `m * 2^e` with a 53-bit significand.
//! The operations used here (integer-to-float conversion, multiplication
//! and division) each deliver the representable value nearest to the exact
//! result, ties to an even significand. Rendering with `p` decimals rounds
//! the exact binary value to the nearest multiple of `10^-p`, ties to an
//! even last digit. Every quantity below stays far from the subnormal and
//! overflow ranges, so only normal values occur.

use vstd::prelude::*;
use crate::text::{dec, pow10, push_char, push_dec128, push_zdec128, zdec};

verus! {

/// A binary64 value as an exact rational: `m * 2^e`.
pub struct Binary64 {
    pub m: nat,
    pub e: int,
}

pub open spec fn two(n: nat) -> nat
    decreases n,
{
    if n == 0 {
        1
    } else {
        2 * two((n - 1) as nat)
    }
}

pub proof fn lemma_two_adds(a: nat, b: nat)
    ensures
        two(a + b) == two(a) * two(b),
    decreases a,
{
    if a > 0 {
        let a1 = (a - 1) as nat;
        lemma_two_adds(a1, b);
        assert(two(a + b) == 2 * two(a1 + b));
        assert(two(a) == 2 * two(a1));
        assert(2 * (two(a1) * two(b)) == (2 * two(a1)) * two(b)) by (nonlinear_arith);
    } else {
        assert(two(a) == 1);
        assert(a + b == b);
    }
}

pub proof fn lemma_two_pos(a: nat)
    ensures
        two(a) >= 1,
    decreases a,
{
    if a > 0 {
        lemma_two_pos((a - 1) as nat);
    }
}

pub proof fn lemma_two_mono(a: nat, b: nat)
    requires
        a <= b,
    ensures
        two(a) <= two(b),
    decreases b,
{
    if a < b {
        lemma_two_mono(a, (b - 1) as nat);
        lemma_two_pos((b - 1) as nat);
    }
}

/// `a / b` rounded to the nearest integer, ties to even.
pub open spec fn rhe(a: nat, b: nat) -> nat
    recommends
        b > 0,
{
    let q = a / b;
    let r = a % b;
    if 2 * r < b {
        q
    } else if 2 * r > b {
        q + 1
    } else if q % 2 == 0 {
        q
    } else {
        q + 1
    }
}

/// `j` is the binary exponent of `a / b`: `2^j <= a / b < 2^(j + 1)`
/// (stated for `j >= -128`, the only exponents that occur here).
pub open spec fn brackets(a: nat, b: nat, j: int) -> bool {
    &&& j >= -128
    &&& b * two((j + 128) as nat) <= a * two(128)
    &&& a * two(128) < b * two((j + 129) as nat)
}

pub open spec fn flog2(a: nat, b: nat) -> int {
    choose|j: int| brackets(a, b, j)
}

/// The binary64 value nearest to `(a / b) * 2^k`, ties to even.
pub open spec fn nearest(a: nat, b: nat, k: int) -> Binary64 {
    if a == 0 {
        Binary64 { m: 0, e: 0 }
    } else {
        let j = flog2(a, b);
        if j <= 52 {
            Binary64 { m: rhe(a * two((52 - j) as nat), b), e: j - 52 + k }
        } else {
            Binary64 { m: rhe(a, b * two((j - 52) as nat)), e: j - 52 + k }
        }
    }
}

/// Is the value of `x` below the integer `c`?
pub open spec fn below(x: Binary64, c: nat) -> bool {
    if x.e >= 0 {
        x.m * two(x.e as nat) < c
    } else {
        x.m < c * two((-x.e) as nat)
    }
}

/// `x * 10^p` rounded to an integer, ties to even.
pub open spec fn scaled(x: Binary64, p: nat) -> nat {
    if x.e >= 0 {
        x.m * two(x.e as nat) * pow10(p)
    } else {
        rhe(x.m * pow10(p), two((-x.e) as nat))
    }
}

/// `x` rendered with exactly `p` decimals (`{:.p}`).
pub open spec fn fixed(x: Binary64, p: nat) -> Seq<char> {
    let n = scaled(x, p);
    if p == 0 {
        dec(n)
    } else {
        dec(n / pow10(p)) + seq!['.'] + zdec(n % pow10(p), p)
    }
}

proof fn lemma_brackets_unique(a: nat, b: nat, j1: int, j2: int)
    requires
        b > 0,
        brackets(a, b, j1),
        brackets(a, b, j2),
    ensures
        j1 == j2,
{
    if j1 < j2 {
        lemma_two_mono((j1 + 129) as nat, (j2 + 128) as nat);
        assert(b * two((j1 + 129) as nat) <= b * two((j2 + 128) as nat)) by (nonlinear_arith)
            requires
                two((j1 + 129) as nat) <= two((j2 + 128) as nat),
        ;
    } else if j2 < j1 {
        lemma_two_mono((j2 + 129) as nat, (j1 + 128) as nat);
        assert(b * two((j2 + 129) as nat) <= b * two((j1 + 128) as nat)) by (nonlinear_arith)
            requires
                two((j2 + 129) as nat) <= two((j1 + 128) as nat),
        ;
    }
}

pub proof fn lemma_flog2(a: nat, b: nat, j: int)
    requires
        b > 0,
        brackets(a, b, j),
    ensures
        flog2(a, b) == j,
{
    let c = flog2(a, b);
    assert(brackets(a, b, c));
    lemma_brackets_unique(a, b, c, j);
}

/// The powers of two the bounds below are stated with.
pub proof fn lemma_two_values()
    ensures
        two(0) == 1,
        two(1) == 2,
        two(10) == 1024,
        two(12) == 4096,
        two(52) == 0x10_0000_0000_0000,
        two(53) == 0x20_0000_0000_0000,
        two(54) == 0x40_0000_0000_0000,
        two(64) == 0x1_0000_0000_0000_0000,
        two(94) == 0x4000_0000_0000_0000_0000_0000,
        two(104) == 0x100_0000_0000_0000_0000_0000_0000,
        two(120) == 0x100_0000_0000_0000_0000_0000_0000_0000,
        two(126) == 0x4000_0000_0000_0000_0000_0000_0000_0000,
{
    reveal_with_fuel(two, 13);
    assert(two(12) == 4096);
    assert(two(4) == 16);
    assert(two(2) == 4);
    assert(two(6) == 64);
    lemma_two_adds(12, 12);
    assert(two(24) == 0x100_0000);
    lemma_two_adds(24, 24);
    assert(two(48) == 0x1_0000_0000_0000);
    lemma_two_adds(48, 4);
    assert(two(52) == 0x10_0000_0000_0000);
    lemma_two_adds(52, 1);
    assert(two(53) == 0x20_0000_0000_0000);
    lemma_two_adds(52, 2);
    assert(two(54) == 0x40_0000_0000_0000);
    lemma_two_adds(52, 12);
    assert(two(64) == 0x1_0000_0000_0000_0000);
    lemma_two_adds(24, 6);
    assert(two(30) == 0x4000_0000);
    lemma_two_adds(64, 30);
    assert(two(94) == 0x4000_0000_0000_0000_0000_0000);
    lemma_two_adds(94, 10);
    assert(two(104) == 0x100_0000_0000_0000_0000_0000_0000);
    lemma_two_adds(12, 4);
    assert(two(16) == 0x1_0000);
    lemma_two_adds(104, 16);
    assert(two(120) == 0x100_0000_0000_0000_0000_0000_0000_0000);
    lemma_two_adds(120, 6);
    assert(two(126) == 0x4000_0000_0000_0000_0000_0000_0000_0000);
}

/// `a / b` rounded to an integer, ties to even.
pub fn round_half_even(a: u128, b: u128) -> (r: u128)
    requires
        b > 0,
        a < 0x4000_0000_0000_0000_0000_0000_0000_0000u128,
        b < 0x4000_0000_0000_0000_0000_0000_0000_0000u128,
    ensures
        r == rhe(a as nat, b as nat),
{
    let q = a / b;
    let r = a % b;
    if 2 * r < b {
        q
    } else if 2 * r > b {
        q + 1
    } else if q % 2 == 0 {
        q
    } else {
        q + 1
    }
}

/// `x * 2^t`.
fn times_two_pow(x: u128, t: u64, Ghost(bound): Ghost<nat>) -> (r: u128)
    requires
        x * two(t as nat) <= bound,
        bound <= u128::MAX,
    ensures
        r == x * two(t as nat),
{
    let mut r = x;
    let mut i: u64 = 0;
    assert(two(0) == 1);
    while i < t
        invariant
            i <= t,
            r == x * two(i as nat),
            x * two(t as nat) <= bound <= u128::MAX,
        decreases t - i,
    {
        proof {
            lemma_two_mono((i + 1) as nat, t as nat);
            assert(x * two((i + 1) as nat) <= x * two(t as nat)) by (nonlinear_arith)
                requires
                    two((i + 1) as nat) <= two(t as nat),
            ;
            assert(x * two((i + 1) as nat) == (x * two(i as nat)) * 2) by (nonlinear_arith)
                requires
                    two((i + 1) as nat) == 2 * two(i as nat),
            ;
        }
        r = r * 2;
        i += 1;
    }
    r
}

proof fn lemma_brackets_up(a: nat, b: nat, j: nat)
    requires
        b * two(j) <= a,
        a < 2 * (b * two(j)),
    ensures
        brackets(a, b, j as int),
{
    lemma_two_adds(j, 128);
    lemma_two_adds(j + 1, 128);
    lemma_two_pos(128);
    assert(two(j + 1) == 2 * two(j));
    assert(b * two(j + 128) == (b * two(j)) * two(128)) by (nonlinear_arith)
        requires
            two(j + 128) == two(j) * two(128),
    ;
    assert((b * two(j)) * two(128) <= a * two(128)) by (nonlinear_arith)
        requires
            b * two(j) <= a,
    ;
    assert(a * two(128) < (2 * (b * two(j))) * two(128)) by (nonlinear_arith)
        requires
            a < 2 * (b * two(j)),
            two(128) >= 1,
    ;
    assert(b * two(j + 1 + 128) == (2 * (b * two(j))) * two(128)) by (nonlinear_arith)
        requires
            two(j + 1 + 128) == two(j + 1) * two(128),
            two(j + 1) == 2 * two(j),
    ;
}

pub proof fn lemma_brackets_down(a: nat, b: nat, n: nat)
    requires
        1 <= n <= 128,
        b <= a * two(n),
        a * two(n) < 2 * b,
    ensures
        brackets(a, b, -(n as int)),
{
    let k = (128 - n) as nat;
    lemma_two_adds(n, k);
    lemma_two_adds(1, k);
    lemma_two_pos(k);
    assert(two(1) == 2) by {
        reveal_with_fuel(two, 2);
    }
    assert(n + k == 128);
    assert(b * two(k) <= a * two(128)) by (nonlinear_arith)
        requires
            b <= a * two(n),
            two(128) == two(n) * two(k),
    ;
    assert(a * two(128) < b * two(1 + k)) by (nonlinear_arith)
        requires
            a * two(n) < 2 * b,
            two(128) == two(n) * two(k),
            two(1 + k) == 2 * two(k),
            two(k) >= 1,
    ;
    assert((-(n as int) + 128) as nat == k);
    assert((-(n as int) + 129) as nat == 1 + k);
}

/// Below the 2^53 boundary the significand is `a * 2^(52 - j) / b`, rounded.
proof fn lemma_significand_low(a: nat, b: nat, j: int)
    requires
        b > 0,
        brackets(a, b, j),
        j <= 52,
    ensures
        b * two(52) <= a * two((52 - j) as nat),
        a * two((52 - j) as nat) < b * two(53),
{
    let s = (52 - j) as nat;
    lemma_two_adds(s, (j + 128) as nat);
    lemma_two_adds(s, (j + 129) as nat);
    lemma_two_adds(52, 128);
    lemma_two_adds(53, 128);
    lemma_two_pos(128);
    lemma_two_pos(s);
    assert(s + (j + 128) == 180);
    assert(s + (j + 129) == 181);
    assert((b * two(52)) * two(128) <= (a * two(s)) * two(128)) by (nonlinear_arith)
        requires
            b * two((j + 128) as nat) <= a * two(128),
            two(180) == two(s) * two((j + 128) as nat),
            two(180) == two(52) * two(128),
    ;
    assert((a * two(s)) * two(128) < (b * two(53)) * two(128)) by (nonlinear_arith)
        requires
            a * two(128) < b * two((j + 129) as nat),
            two(181) == two(s) * two((j + 129) as nat),
            two(181) == two(53) * two(128),
            two(s) >= 1,
    ;
    assert(b * two(52) <= a * two(s)) by (nonlinear_arith)
        requires
            (b * two(52)) * two(128) <= (a * two(s)) * two(128),
            two(128) >= 1,
    ;
    assert(a * two(s) < b * two(53)) by (nonlinear_arith)
        requires
            (a * two(s)) * two(128) < (b * two(53)) * two(128),
            two(128) >= 1,
    ;
}

/// Above it the significand is `a / (b * 2^(j - 52))`, rounded.
proof fn lemma_significand_high(a: nat, b: nat, j: int)
    requires
        b > 0,
        brackets(a, b, j),
        j > 52,
    ensures
        (b * two((j - 52) as nat)) * two(52) <= a,
        a < (b * two((j - 52) as nat)) * two(53),
{
    let s = (j - 52) as nat;
    let d = b * two(s);
    lemma_two_adds(s, 180);
    lemma_two_adds(s, 181);
    lemma_two_adds(52, 128);
    lemma_two_adds(53, 128);
    lemma_two_pos(128);
    assert(s + 180 == j + 128);
    assert(s + 181 == j + 129);
    assert((d * two(52)) * two(128) <= a * two(128)) by (nonlinear_arith)
        requires
            b * two((j + 128) as nat) <= a * two(128),
            two(s + 180) == two(s) * two(180),
            two(180) == two(52) * two(128),
            d == b * two(s),
            (j + 128) as nat == s + 180,
    ;
    assert(a * two(128) < (d * two(53)) * two(128)) by (nonlinear_arith)
        requires
            a * two(128) < b * two((j + 129) as nat),
            two(s + 181) == two(s) * two(181),
            two(181) == two(53) * two(128),
            d == b * two(s),
            (j + 129) as nat == s + 181,
    ;
    assert(d * two(52) <= a) by (nonlinear_arith)
        requires
            (d * two(52)) * two(128) <= a * two(128),
            two(128) >= 1,
    ;
    assert(a < d * two(53)) by (nonlinear_arith)
        requires
            a * two(128) < (d * two(53)) * two(128),
            two(128) >= 1,
    ;
}

/// The binary exponent of `a / b`.
fn binary_exponent(a: u64, b: u64) -> (j: i64)
    requires
        a > 0,
        b > 0,
    ensures
        flog2(a as nat, b as nat) == j,
        brackets(a as nat, b as nat, j as int),
        -64 <= j <= 63,
        forall|k: nat| (a as nat) < (b as nat) * #[trigger] two(k) ==> j < k,
        forall|k: nat| (a as nat) >= (b as nat) * #[trigger] two(k) ==> j >= k,
        2 * (a as nat) >= b ==> j >= -1,
{
    proof {
        assert(two(12) == 4096) by {
            reveal_with_fuel(two, 13);
        }
        assert(two(52) == 0x10_0000_0000_0000) by {
            reveal_with_fuel(two, 53);
        }
        lemma_two_adds(52, 12);
    }
    assert(two(64) == 0x1_0000_0000_0000_0000);
    assert(two(0) == 1);
    let ghost an = a as nat;
    let ghost bn = b as nat;
    let mut j: i64 = 0;
    if a >= b {
        let mut pb: u128 = b as u128;
        assert(pb == bn * two(j as nat)) by {
            assert(j as nat == 0);
            assert(bn * 1 == bn);
        }
        while pb * 2 <= a as u128
            invariant
                0 <= j <= 63,
                pb == bn * two(j as nat),
                pb <= an,
                bn >= 1,
                an == a,
                bn == b,
                two(64) == 0x1_0000_0000_0000_0000,
            decreases an - pb,
        {
            proof {
                lemma_two_pos(j as nat);
                assert(two(j as nat) <= pb) by (nonlinear_arith)
                    requires
                        pb == bn * two(j as nat),
                        bn >= 1,
                ;
                if j >= 63 {
                    lemma_two_mono(64, (j + 1) as nat);
                }
                assert(pb * 2 == bn * two((j + 1) as nat)) by (nonlinear_arith)
                    requires
                        pb == bn * two(j as nat),
                        two((j + 1) as nat) == 2 * two(j as nat),
                ;
            }
            pb = pb * 2;
            j += 1;
        }
        proof {
            lemma_brackets_up(an, bn, j as nat);
            assert forall|k: nat| an < bn * #[trigger] two(k) implies j < k by {
                if j >= k {
                    lemma_two_mono(k, j as nat);
                    assert(bn * two(k) <= bn * two(j as nat)) by (nonlinear_arith)
                        requires
                            two(k) <= two(j as nat),
                    ;
                }
            }
            assert(two((j + 1) as nat) == 2 * two(j as nat));
            assert(an < bn * two((j + 1) as nat)) by (nonlinear_arith)
                requires
                    an < pb * 2,
                    pb == bn * two(j as nat),
                    two((j + 1) as nat) == 2 * two(j as nat),
            ;
            assert forall|k: nat| an >= bn * #[trigger] two(k) implies j >= k by {
                if j < k {
                    lemma_two_mono((j + 1) as nat, k);
                    assert(bn * two((j + 1) as nat) <= bn * two(k)) by (nonlinear_arith)
                        requires
                            two((j + 1) as nat) <= two(k),
                    ;
                    assert(two((j + 1) as nat) == 2 * two(j as nat));
                }
            }
        }
    } else {
        let mut pa: u128 = a as u128;
        assert(two(1) == 2) by {
            reveal_with_fuel(two, 2);
        }
        assert(pa == an * two((-j) as nat)) by {
            assert((-j) as nat == 0);
            assert(an * 1 == an);
        }
        while pa < b as u128
            invariant
                -64 <= j <= 0,
                pa == an * two((-j) as nat),
                j < 0 ==> pa < 2 * bn,
                j < -1 ==> 2 * an < bn,
                an < bn,
                two(1) == 2,
                an >= 1,
                an == a,
                bn == b,
                two(64) == 0x1_0000_0000_0000_0000,
            decreases 128 + j,
        {
            proof {
                if j == -1 {
                    assert((-j) as nat == 1);
                    assert(pa == 2 * an);
                }
                lemma_two_pos((-j) as nat);
                assert(two((-j) as nat) <= pa) by (nonlinear_arith)
                    requires
                        pa == an * two((-j) as nat),
                        an >= 1,
                ;
                if j <= -64 {
                    lemma_two_mono(64, (-j) as nat);
                }
                assert(pa * 2 == an * two((-j + 1) as nat)) by (nonlinear_arith)
                    requires
                        pa == an * two((-j) as nat),
                        two((-j + 1) as nat) == 2 * two((-j) as nat),
                ;
            }
            pa = pa * 2;
            j -= 1;
        }
        proof {
            lemma_brackets_down(an, bn, (-j) as nat);
            assert(2 * an >= bn ==> j >= -1);
            assert forall|k: nat| an >= bn * #[trigger] two(k) implies j >= k by {
                lemma_two_pos(k);
                assert(bn * two(k) >= bn) by (nonlinear_arith)
                    requires
                        two(k) >= 1,
                ;
            }
        }
    }
    proof {
        lemma_flog2(an, bn, j as int);
    }
    j
}

/// The binary64 value nearest to `a / b`, as significand and exponent.
pub fn round_quotient(a: u64, b: u64) -> (r: (u64, i64))
    requires
        a > 0,
        b > 0,
    ensures
        nearest(a as nat, b as nat, 0) == (Binary64 { m: r.0 as nat, e: r.1 as int }),
        two(52) <= r.0 <= two(53),
        -116 <= r.1 <= 11,
        forall|k: nat| (a as nat) < (b as nat) * #[trigger] two(k) ==> r.1 < k - 52,
        forall|k: nat| (a as nat) >= (b as nat) * #[trigger] two(k) ==> r.1 >= k - 52,
        2 * (a as nat) >= b ==> r.1 >= -53,
{
    proof {
        assert(two(12) == 4096) by {
            reveal_with_fuel(two, 13);
        }
        assert(two(52) == 0x10_0000_0000_0000) by {
            reveal_with_fuel(two, 53);
        }
        lemma_two_adds(52, 12);
    }
    assert(two(64) == 0x1_0000_0000_0000_0000);
    assert(two(53) == 0x20_0000_0000_0000);
    let ghost an = a as nat;
    let ghost bn = b as nat;
    let j = binary_exponent(a, b);
    if j <= 52 {
        let s = (52 - j) as u64;
        proof {
            lemma_significand_low(an, bn, j as int);
            assert(bn * two(53) <= 0x1_0000_0000_0000_0000 * two(53)) by (nonlinear_arith)
                requires
                    bn < 0x1_0000_0000_0000_0000,
            ;
        }
        let num = times_two_pow(a as u128, s, Ghost(0x1_0000_0000_0000_0000 * two(53)));
        let m = round_half_even(num, b as u128);
        proof {
            let q = (num as nat) / bn;
            assert(q * bn <= (num as nat) && (num as nat) < (q + 1) * bn) by (nonlinear_arith)
                requires
                    bn > 0,
                    q == (num as nat) / bn,
            ;
            assert(two(52) <= q) by (nonlinear_arith)
                requires
                    bn * two(52) <= (num as nat),
                    (num as nat) < (q + 1) * bn,
                    bn > 0,
            ;
            assert(q < two(53)) by (nonlinear_arith)
                requires
                    (num as nat) < bn * two(53),
                    q * bn <= (num as nat),
                    bn > 0,
            ;
        }
        (m as u64, j - 52)
    } else {
        let s = (j - 52) as u64;
        let ghost dn = bn * two(s as nat);
        proof {
            lemma_significand_high(an, bn, j as int);
            lemma_two_pos(s as nat);
            lemma_two_pos(52);
            assert(dn <= dn * two(52)) by (nonlinear_arith)
                requires
                    two(52) >= 1,
            ;
            assert(dn >= 1) by (nonlinear_arith)
                requires
                    dn == bn * two(s as nat),
                    bn >= 1,
                    two(s as nat) >= 1,
            ;
        }
        let den = times_two_pow(b as u128, s, Ghost(an));
        let m = round_half_even(a as u128, den);
        proof {
            let q = an / dn;
            assert(q * dn <= an && an < (q + 1) * dn) by (nonlinear_arith)
                requires
                    dn > 0,
                    q == an / dn,
            ;
            assert(two(52) <= q) by (nonlinear_arith)
                requires
                    dn * two(52) <= an,
                    an < (q + 1) * dn,
                    dn > 0,
            ;
            assert(q < two(53)) by (nonlinear_arith)
                requires
                    an < dn * two(53),
                    q * dn <= an,
                    dn > 0,
            ;
        }
        (m as u64, j - 52)
    }
}

/// `10^p` for the precisions used here.
fn pow10_exec(p: u64) -> (r: u128)
    requires
        p <= 3,
    ensures
        r == pow10(p as nat),
        1 <= r <= 1000,
{
    proof {
        reveal_with_fuel(pow10, 4);
    }
    if p == 0 {
        1
    } else if p == 1 {
        10
    } else if p == 2 {
        100
    } else {
        1000
    }
}

/// Is `m * 2^e` below `c`?
pub fn value_below(m: u64, e: i64, c: u64) -> (r: bool)
    requires
        -64 <= e <= 0,
    ensures
        r == below(Binary64 { m: m as nat, e: e as int }, c as nat),
{
    let t = (0 - e) as u64;
    proof {
        lemma_two_mono(t as nat, 64);
        assert(two(12) == 4096) by {
            reveal_with_fuel(two, 13);
        }
        assert(two(52) == 0x10_0000_0000_0000) by {
            reveal_with_fuel(two, 53);
        }
        lemma_two_adds(52, 12);
        assert((c as nat) * two(t as nat) <= 0xFFFF_FFFF_FFFF_FFFF * 0x1_0000_0000_0000_0000) by (nonlinear_arith)
            requires
                c <= 0xFFFF_FFFF_FFFF_FFFF,
                two(t as nat) <= 0x1_0000_0000_0000_0000,
        ;
    }
    let bound = times_two_pow(c as u128, t, Ghost(0xFFFF_FFFF_FFFF_FFFF * 0x1_0000_0000_0000_0000));
    if e == 0 {
        proof {
            assert(two(0) == 1);
            assert((m as nat) * two(0) == m as nat);
        }
        m < c
    } else {
        (m as u128) < bound
    }
}

/// Appends `m * 2^e` rendered with exactly `p` decimals.
pub fn push_fixed(out: &mut String, m: u64, e: i64, p: u64)
    requires
        m < 0x40_0000_0000_0000,
        -128 <= e <= 40,
        p <= 3,
    ensures
        final(out)@ == old(out)@ + fixed(Binary64 { m: m as nat, e: e as int }, p as nat),
{
    let ghost x = Binary64 { m: m as nat, e: e as int };
    let pw = pow10_exec(p);
    proof {
        lemma_two_values();
        assert(two(12) == 4096) by {
            reveal_with_fuel(two, 13);
        }
        assert(two(52) == 0x10_0000_0000_0000) by {
            reveal_with_fuel(two, 53);
        }
        lemma_two_adds(52, 12);
        lemma_two_adds(64, 64);
    }
    let n: u128 = if e >= 0 {
        proof {
            lemma_two_mono(e as nat, 40);
            lemma_two_adds(54, 40);
            assert((m as nat) * two(e as nat) <= two(54) * two(40)) by (nonlinear_arith)
                requires
                    m < two(54),
                    two(e as nat) <= two(40),
            ;
            lemma_two_mono(94, 128);
            assert(two(54) == 4 * two(52)) by {
                reveal_with_fuel(two, 3);
                lemma_two_adds(52, 2);
            }
            lemma_two_adds(94, 10);
            lemma_two_adds(104, 24);
            assert(two(10) == 1024) by {
                reveal_with_fuel(two, 11);
            }
            lemma_two_pos(24);
        }
        let w = times_two_pow(m as u128, e as u64, Ghost(two(94)));
        proof {
            assert((w as nat) * (pw as nat) <= two(94) * 1024) by (nonlinear_arith)
                requires
                    w <= two(94),
                    pw <= 1000,
            ;
        }
        w * pw
    } else {
        let t = (0 - e) as u64;
        if t > 120 {
            proof {
                lemma_two_mono(64, t as nat);
                let a = (m as nat) * pow10(p as nat);
                let b = two(t as nat);
                assert(a < 0x1_0000_0000_0000_0000) by (nonlinear_arith)
                    requires
                        a == (m as nat) * pow10(p as nat),
                        m < 0x40_0000_0000_0000,
                        pow10(p as nat) <= 1000,
                ;
                assert(a / b == 0 && a % b == a) by (nonlinear_arith)
                    requires
                        a < b,
                ;
                lemma_two_mono(65, t as nat);
                assert(two(65) == 2 * two(64));
            }
            0
        } else {
            proof {
                lemma_two_mono(t as nat, 120);
                lemma_two_mono(120, 126);
            }
            let den = times_two_pow(1, t, Ghost(two(120)));
            proof {
                assert(den == two(t as nat));
                lemma_two_pos(t as nat);
                lemma_two_adds(120, 6);
                assert((m as nat) * (pw as nat) < 0x4000_0000_0000_0000_0000) by (nonlinear_arith)
                    requires
                        m < 0x40_0000_0000_0000,
                        pw <= 1000,
                ;
            }
            round_half_even((m as u128) * pw, den)
        }
    };
    assert(n == scaled(x, p as nat));
    if p == 0 {
        push_dec128(out, n);
    } else {
        let ip = n / pw;
        let fp = n % pw;
        push_dec128(out, ip);
        push_char(out, '.');
        push_zdec128(out, fp, p as usize);
    }
}

// ---------------------------------------------------------------------
// Bounds on rounded values
// ---------------------------------------------------------------------

/// Rounding `a / b` to the nearest integer never lands above `c` when
/// `a / b` is below `c + 1/2`.
pub proof fn lemma_rhe_at_most(a: nat, b: nat, c: nat)
    requires
        b > 0,
        2 * a < (2 * c + 1) * b,
    ensures
        rhe(a, b) <= c,
{
    let q = a / b;
    let r = a % b;
    assert(a == q * b + r && r < b) by (nonlinear_arith)
        requires
            b > 0,
            q == a / b,
            r == a % b,
    ;
    if q >= c + 1 {
        assert(2 * a >= (2 * c + 1) * b) by (nonlinear_arith)
            requires
                q >= c + 1,
                b > 0,
                a == q * b + r,
        ;
    }
    if q == c {
        assert(2 * r < b) by (nonlinear_arith)
            requires
                2 * a < (2 * c + 1) * b,
                a == q * b + r,
                q == c,
        ;
    }
}

/// Rounding `a / b` to the nearest integer moves it by at most a half.
pub proof fn lemma_rhe_bound(a: nat, b: nat)
    requires
        b > 0,
    ensures
        2 * b * rhe(a, b) <= 2 * a + b,
        2 * a <= 2 * b * rhe(a, b) + b,
{
    let q = a / b;
    let r = a % b;
    assert(a == q * b + r && r < b) by (nonlinear_arith)
        requires
            b > 0,
            q == a / b,
            r == a % b,
    ;
    if rhe(a, b) == q {
        assert(2 * r <= b);
        assert(2 * b * q <= 2 * a + b && 2 * a <= 2 * b * q + b) by (nonlinear_arith)
            requires
                a == q * b + r,
                2 * r <= b,
        ;
    } else {
        assert(2 * r >= b);
        assert(2 * b * (q + 1) <= 2 * a + b && 2 * a <= 2 * b * (q + 1) + b) by (nonlinear_arith)
            requires
                a == q * b + r,
                2 * r >= b,
                r < b,
        ;
    }
}

/// The binary exponent of `a / b` is found by doubling `b` from `2^j`
/// on while it stays at most `a`.
pub proof fn lemma_exponent_exists(a: nat, b: nat, j: nat, hi: nat)
    requires
        b > 0,
        b * two(j) <= a,
        a < b * two(hi),
    ensures
        exists|k: nat| j <= k < hi && #[trigger] brackets(a, b, k as int) && flog2(a, b) == k,
    decreases hi - j,
{
    lemma_two_pos(j);
    assert(two(j + 1) == 2 * two(j));
    if a < 2 * (b * two(j)) {
        lemma_brackets_up(a, b, j);
        lemma_flog2(a, b, j as int);
        if j >= hi {
            lemma_two_mono(hi, j);
            assert(b * two(hi) <= b * two(j)) by (nonlinear_arith)
                requires
                    two(hi) <= two(j),
            ;
        }
        assert(brackets(a, b, j as int));
    } else {
        assert(b * two(j + 1) <= a) by (nonlinear_arith)
            requires
                two(j + 1) == 2 * two(j),
                a >= 2 * (b * two(j)),
        ;
        if j + 1 >= hi {
            lemma_two_mono(hi, j + 1);
            assert(b * two(hi) <= b * two(j + 1)) by (nonlinear_arith)
                requires
                    two(hi) <= two(j + 1),
            ;
        }
        lemma_exponent_exists(a, b, j + 1, hi);
    }
}

/// Rounding `a / b` to the nearest integer never lands below `c` when
/// `a / b` is above `c - 1/2`.
pub proof fn lemma_rhe_at_least(a: nat, b: nat, c: nat)
    requires
        b > 0,
        c >= 1,
        2 * a > (2 * c - 1) * b,
    ensures
        rhe(a, b) >= c,
{
    let q = a / b;
    let r = a % b;
    assert(a == q * b + r && r < b) by (nonlinear_arith)
        requires
            b > 0,
            q == a / b,
            r == a % b,
    ;
    if q + 1 < c {
        assert(2 * a < (2 * c - 1) * b) by (nonlinear_arith)
            requires
                q + 1 < c,
                a == q * b + r,
                r < b,
                b > 0,
        ;
    } else if q + 1 == c {
        assert(2 * r > b) by (nonlinear_arith)
            requires
                2 * a > (2 * c - 1) * b,
                a == q * b + r,
                q + 1 == c,
        ;
    }
}

} // verus!
