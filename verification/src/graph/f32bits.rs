//! IEEE-754 binary32 bit patterns computed with integer arithmetic, for the float
//! constants that op decompositions derive from tensor sizes.

use vstd::prelude::*;
use vstd::arithmetic::div_mod::{lemma_fundamental_div_mod, lemma_fundamental_div_mod_converse};

verus! {

pub open spec fn p2(k: nat) -> nat
    decreases k,
{
    if k == 0 { 1 } else { 2 * p2((k - 1) as nat) }
}

pub proof fn lemma_p2_add(a: nat, b: nat)
    ensures p2(a + b) == p2(a) as int * p2(b) as int,
    decreases b,
{
    if b > 0 {
        let b1 = (b - 1) as nat;
        lemma_p2_add(a, b1);
        let x = p2(a);
        let y = p2(b1);
        assert(p2(a + b1) == x * y);
        assert(a + b == (a + b1) + 1);
        assert(p2(a + b) == 2 * p2(a + b1));
        assert(p2(b) == 2 * y);
        assert(2 * (x * y) == x * (2 * y)) by (nonlinear_arith);
        assert(p2(a + b) == 2 * (x * y));
        assert(p2(a + b) == x * (2 * y));
        assert(p2(a + b) == p2(a) as int * p2(b) as int);
    } else {
        assert(a + b == a);
        assert(p2(b) == 1);
        assert(p2(a + b) == p2(a));
        assert(p2(a) as int * 1 == p2(a) as int);
    }
}

pub proof fn lemma_p2_pos(a: nat)
    ensures p2(a) >= 1,
    decreases a,
{
    if a > 0 { lemma_p2_pos((a - 1) as nat); }
}

pub proof fn lemma_p2_mono(a: nat, b: nat)
    requires a <= b,
    ensures p2(a) <= p2(b),
    decreases b,
{
    if a < b {
        lemma_p2_mono(a, (b - 1) as nat);
    }
}

pub proof fn lemma_p2_64()
    ensures p2(64) == 0x1_0000_0000_0000_0000,
{
    reveal_with_fuel(p2, 65);
}

pub proof fn lemma_p2_consts()
    ensures p2(22) == 0x40_0000, p2(23) == 0x80_0000, p2(24) == 0x100_0000,
{
    reveal_with_fuel(p2, 25);
}

/// Biased exponent field of an f32 bit pattern.
pub open spec fn f32_exp_field(bits: u32) -> nat {
    ((bits / 0x80_0000) % 256) as nat
}

/// Significand (with the implicit leading one) of a normal f32 bit pattern.
pub open spec fn f32_mant(bits: u32) -> nat {
    (bits % 0x80_0000 + 0x80_0000) as nat
}

/// Positive, normal, at most 2^23 in exponent (a value no larger than 2^0).
pub open spec fn f32_positive_normal(bits: u32) -> bool {
    &&& bits < 0x8000_0000
    &&& 1 <= f32_exp_field(bits) <= 254
}

pub open spec fn abs_int(x: int) -> int {
    if x < 0 { -x } else { x }
}

/// `bits` is a positive normal f32 whose value `mant * 2^(e-150)` lies within half a unit
/// in the last place of `1/n`: it is the f32 nearest to `1/n`.
pub open spec fn nearest_recip(bits: u32, n: int) -> bool {
    &&& f32_positive_normal(bits)
    &&& f32_exp_field(bits) <= 150
    &&& 2 * abs_int(f32_mant(bits) * n - p2((150 - f32_exp_field(bits)) as nat)) <= n
}

proof fn lemma_fields(e: u64, m: u64)
    requires 1 <= e <= 254, 0x80_0000 <= m < 0x100_0000,
    ensures ({
        let bits = (e * 0x80_0000 + (m - 0x80_0000)) as u32;
        f32_exp_field(bits) == e && f32_mant(bits) == m && f32_positive_normal(bits)
    }),
{
    let x = (e * 0x80_0000 + (m - 0x80_0000)) as int;
    lemma_fundamental_div_mod_converse(x, 0x80_0000, e as int, (m - 0x80_0000) as int);
}

/// `n >= 1` as `q * 2^s` with `1 <= q < 2^24`: `q` is `n / 2^s` rounded to nearest, ties to
/// even (exact below `2^24`).
fn round_to_24(n: u64) -> (r: (u64, u64))
    requires n >= 1,
    ensures
        1 <= r.0 < 0x100_0000, r.1 <= 64,
        n < 0x100_0000 ==> r.0 == n && r.1 == 0,
{
    let mut q: u64 = n;
    let mut s: u64 = 0;
    if n >= 0x100_0000 {
        let mut d: u64 = 1;
        let mut t: u64 = n;
        while t >= 0x100_0000
            invariant
                d == p2(s as nat),
                1 <= d <= n,
                t == n / d,
                s <= 63,
            decreases t,
        {
            proof {
                lemma_fundamental_div_mod(n as int, d as int);
                assert(n >= d * 0x100_0000) by (nonlinear_arith)
                    requires n == d * t + n % d, n % d >= 0, t >= 0x100_0000, d >= 1;
                lemma_p2_64();
                assert(s + 1 <= 63) by {
                    if s + 1 >= 64 {
                        lemma_p2_mono(64, (s + 1) as nat);
                    }
                }
                assert(t / 2 < t);
                assert((n as int) / (d as int * 2) == (t as int) / 2) by {
                    vstd::arithmetic::div_mod::lemma_div_denominator(n as int, d as int, 2);
                }
            }
            d = d * 2;
            s = s + 1;
            t = n / d;
        }
        q = t;
        let r = n % d;
        let half = d / 2;
        proof { lemma_fundamental_div_mod(n as int, d as int); }
        assert(q >= 1) by (nonlinear_arith) requires q == n / d, d <= n, d >= 1;
        if r > half || (r == half && q % 2 == 1) {
            q = q + 1;
        }
        if q >= 0x100_0000 {
            q = 0x80_0000;
            s = s + 1;
        }
    }
    (q, s)
}

/// The f32 nearest to `1 / (n as f32)`, as a bit pattern (`+inf` for `n == 0`): `n` is first
/// rounded to the nearest f32 (ties to even), then its reciprocal is rounded (ties to even).
#[verifier::spinoff_prover]
pub fn recip_count_bits(n: u64) -> (bits: u32)
    ensures
        n == 0 ==> bits == 0x7f80_0000,
        n >= 1 ==> f32_positive_normal(bits),
        1 <= n < 0x100_0000 ==> nearest_recip(bits, n as int),
{
    if n == 0 {
        return 0x7f80_0000;
    }
    let (q, s) = round_to_24(n);
    // 1/q: b = bit length of q
    let mut b: u64 = 0;
    let mut pb: u64 = 1;
    while pb <= q
        invariant
            b <= 24,
            pb == p2(b as nat),
            b > 0 ==> p2((b - 1) as nat) <= q,
            1 <= q < 0x100_0000,
        decreases 24 - b,
    {
        proof {
            lemma_p2_consts();
            if b >= 24 {
                lemma_p2_mono(24, b as nat);
            }
            assert(b <= 23);
            lemma_p2_mono(b as nat, 23);
            assert(pb <= 0x80_0000);
        }
        pb = pb * 2;
        b = b + 1;
    }
    assert(b >= 1);
    if q * 2 == pb {
        let e: u64 = 128 - b - s;
        proof {
            lemma_fields(e, 0x80_0000);
            if n < 0x100_0000 {
                assert(s == 0 && q == n);
                let ee = f32_exp_field((e * 0x80_0000) as u32);
                assert(ee == e);
                assert((150 - ee) as nat == (22 + b) as nat);
                lemma_p2_add(23, (b - 1) as nat);
                lemma_p2_consts();
                assert(q == p2((b - 1) as nat));
                assert((23 + (b - 1) as nat) as nat == (22 + b) as nat);
                let bits = (e * 0x80_0000 + (0x80_0000 - 0x80_0000)) as u32;
                assert(bits == (e * 0x80_0000) as u32);
                assert(f32_mant(bits) * n == p2((150 - f32_exp_field(bits)) as nat));
            }
        }
        (e * 0x80_0000) as u32
    } else {
        let big: u64 = pb * 0x80_0000;
        let mut m: u64 = big / q;
        let rr: u64 = big % q;
        proof {
            lemma_fundamental_div_mod(big as int, q as int);
            assert(big == q * m + rr);
            assert(q > p2((b - 1) as nat));
            assert(pb == 2 * p2((b - 1) as nat));
            assert(q < pb);
            assert(m >= 0x80_0000) by (nonlinear_arith)
                requires big == q * m + rr, rr < q, big == pb * 0x80_0000, q < pb, q >= 1;
            assert(m < 0x100_0000) by (nonlinear_arith)
                requires big == q * m + rr, rr >= 0, big == pb * 0x80_0000, 2 * q > pb, q >= 1;
        }
        let ghost m0 = m;
        let up = rr * 2 > q || (rr * 2 == q && m % 2 == 1);
        if up {
            m = m + 1;
        }
        assert(2 * abs_int(m * q - big) <= q) by {
            if up {
                assert(m * q - big == q - rr) by (nonlinear_arith) requires m == m0 + 1, big == q * m0 + rr;
            } else {
                assert(m * q - big == -rr) by (nonlinear_arith) requires m == m0, big == q * m0 + rr;
            }
        }
        let ghost m1 = m;
        let mut e: u64 = 127 - b - s;
        if m == 0x100_0000 {
            m = 0x80_0000;
            e = e + 1;
        }
        proof {
            lemma_fields(e, m);
            if n < 0x100_0000 {
                assert(s == 0 && q == n);
                lemma_p2_add(23, b as nat);
                lemma_p2_consts();
                assert(big == p2((b + 23) as nat));
                let bits = (e * 0x80_0000 + (m - 0x80_0000)) as u32;
                if m1 == 0x100_0000 {
                    lemma_p2_add(22, b as nat);
                    lemma_p2_consts();
                    assert(p2((22 + b) as nat) * 2 == big);
                    assert((150 - f32_exp_field(bits)) as nat == (22 + b) as nat);
                    assert(2 * (f32_mant(bits) * n - p2((22 + b) as nat)) == m1 * q - big);
                } else {
                    assert((150 - f32_exp_field(bits)) as nat == (23 + b) as nat);
                    assert(p2((23 + b) as nat) == big);
                }
            }
        }
        (e * 0x80_0000 + (m - 0x80_0000)) as u32
    }
}

/// `bits` is a positive normal f32 whose value `mant * 2^(e-150)` is exactly `n`.
pub open spec fn exact_int_bits(bits: u32, n: int) -> bool {
    &&& f32_positive_normal(bits)
    &&& f32_exp_field(bits) <= 150
    &&& f32_mant(bits) == n * p2((150 - f32_exp_field(bits)) as nat)
}

/// `n as f32` as a bit pattern: exact below `2^24`, rounded to nearest (ties to even) above.
pub fn int_f32_bits(n: u64) -> (bits: u32)
    ensures
        n == 0 ==> bits == 0,
        n >= 1 ==> f32_positive_normal(bits),
        1 <= n < 0x100_0000 ==> exact_int_bits(bits, n as int),
{
    if n == 0 {
        return 0;
    }
    let (q, s) = round_to_24(n);
    let mut b: u64 = 0;
    let mut pb: u64 = 1;
    while pb <= q
        invariant
            b <= 24,
            pb == p2(b as nat),
            b > 0 ==> p2((b - 1) as nat) <= q,
            1 <= q < 0x100_0000,
        decreases 24 - b,
    {
        proof {
            lemma_p2_consts();
            if b >= 24 {
                lemma_p2_mono(24, b as nat);
            }
            assert(b <= 23);
            lemma_p2_mono(b as nat, 23);
            assert(pb <= 0x80_0000);
        }
        pb = pb * 2;
        b = b + 1;
    }
    assert(b >= 1);
    let mut m: u64 = q;
    let mut k: u64 = b;
    while k < 24
        invariant
            1 <= b <= k <= 24,
            p2((k - 1) as nat) <= m < p2(k as nat),
            m == q * p2((k - b) as nat),
        decreases 24 - k,
    {
        proof {
            lemma_p2_consts();
            lemma_p2_mono(k as nat, 23);
            assert(p2((k + 1 - b) as nat) == 2 * p2((k - b) as nat));
            assert(q * p2((k + 1 - b) as nat) == 2 * (q * p2((k - b) as nat))) by (nonlinear_arith)
                requires p2((k + 1 - b) as nat) == 2 * p2((k - b) as nat);
        }
        m = m * 2;
        k = k + 1;
    }
    proof { lemma_p2_consts(); }
    let e: u64 = 126 + b + s;
    proof {
        lemma_fields(e, m);
        if n < 0x100_0000 {
            let bits = (e * 0x80_0000 + (m - 0x80_0000)) as u32;
            assert(s == 0 && q == n);
            assert((150 - f32_exp_field(bits)) as nat == (24 - b) as nat);
        }
    }
    (e * 0x80_0000 + (m - 0x80_0000)) as u32
}

/// `v as f32` for a signed `v`: the magnitude as by `int_f32_bits`, the sign bit set for a
/// negative `v`.
pub fn i64_f32_bits(v: i64) -> (bits: u32)
    ensures
        v == 0 ==> bits == 0,
        0 < v < 0x100_0000 ==> exact_int_bits(bits, v as int),
        -0x100_0000 < v < 0 ==> bits >= 0x8000_0000 && exact_int_bits((bits - 0x8000_0000) as u32, -v),
{
    if v >= 0 {
        int_f32_bits(v as u64)
    } else {
        let mag: u64 = if v == i64::MIN { 0x8000_0000_0000_0000 } else { (-v) as u64 };
        let b = int_f32_bits(mag);
        b + 0x8000_0000
    }
}

} // verus!
