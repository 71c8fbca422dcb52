use vstd::prelude::*;

verus! {

// IEEE 754 binary32 arithmetic on bit patterns.
//
// Vector elements and similarity scores are 32-bit floating-point values.
// The library stores and manipulates them as their bit patterns (`u32`) and
// performs the arithmetic itself, in plain integer code, so that the whole
// scoring path is verified. Each operation has a spec-level definition and
// an executable twin proved equal to it; rounding is round-to-nearest-even.

/// Sign bit of a bit pattern: 0 or 1.
pub open spec fn sf_sign(x: u32) -> int {
    (x as int) / 0x80000000
}

/// Magnitude bits: everything except the sign bit.
pub open spec fn sf_mag(x: u32) -> int {
    (x as int) % 0x80000000
}

/// Stored exponent field (8 bits).
pub open spec fn sf_exp(x: u32) -> int {
    sf_mag(x) / 0x800000
}

/// Stored fraction field (23 bits).
pub open spec fn sf_frac(x: u32) -> int {
    sf_mag(x) % 0x800000
}

pub open spec fn sf_is_nan(x: u32) -> bool {
    sf_exp(x) == 255 && sf_frac(x) != 0
}

pub open spec fn sf_is_inf(x: u32) -> bool {
    sf_exp(x) == 255 && sf_frac(x) == 0
}

/// Positive or negative zero.
pub open spec fn sf_is_zero(x: u32) -> bool {
    sf_mag(x) == 0
}

/// The canonical quiet NaN this library produces for invalid operations.
pub open spec fn sf_qnan() -> int {
    0x7FC00000
}

pub open spec fn sf_pack(sign: int, e: int, f: int) -> int {
    sign * 0x80000000 + e * 0x800000 + f
}

pub open spec fn sf_inf_bits(sign: int) -> int {
    sf_pack(sign, 255, 0)
}

/// Right shift by one with the dropped bit jammed (or-ed) into the low bit,
/// so that "some bit was lost" is never forgotten by later rounding.
pub closed spec fn sf_jam_step(v: int) -> int {
    let q = v / 2;
    if v % 2 == 1 && q % 2 == 0 {
        q + 1
    } else {
        q
    }
}

/// `k`-fold jammed right shift.
pub closed spec fn sf_shr_jam(v: int, k: nat) -> int
    decreases k,
{
    if k == 0 {
        v
    } else {
        sf_jam_step(sf_shr_jam(v, (k - 1) as nat))
    }
}

/// Number of doublings needed to bring `m` into the 24-bit range
/// [0x800000, 0x1000000).
pub closed spec fn sf_norm24_shift(m: int) -> nat
    decreases (if m <= 0 || m >= 0x800000 { 0int } else { 0x800000 - m }),
{
    if m < 1 || m >= 0x800000 {
        0
    } else {
        1 + sf_norm24_shift(2 * m)
    }
}

/// `m` brought into the 24-bit range by doubling.
pub closed spec fn sf_norm24_val(m: int) -> int
    decreases (if m <= 0 || m >= 0x800000 { 0int } else { 0x800000 - m }),
{
    if m < 1 || m >= 0x800000 {
        m
    } else {
        sf_norm24_val(2 * m)
    }
}

/// Number of doublings needed to bring `m` into the 31-bit range
/// [0x40000000, 0x80000000).
pub closed spec fn sf_norm31_shift(m: int) -> nat
    decreases (if m <= 0 || m >= 0x40000000 { 0int } else { 0x40000000 - m }),
{
    if m < 1 || m >= 0x40000000 {
        0
    } else {
        1 + sf_norm31_shift(2 * m)
    }
}

pub closed spec fn sf_norm31_val(m: int) -> int
    decreases (if m <= 0 || m >= 0x40000000 { 0int } else { 0x40000000 - m }),
{
    if m < 1 || m >= 0x40000000 {
        m
    } else {
        sf_norm31_val(2 * m)
    }
}

/// Rounds and packs a result. The incoming value is `sig * 2^(g - 156)`,
/// with `sig` carrying 7 extra rounding bits; when `g > 0` callers pass
/// `sig` normalized into [2^30, 2^31).
pub closed spec fn sf_round_pack(sign: int, g: int, sig: int) -> int {
    let g1 = if g < 0 { 0 } else { g };
    let sig1 = if g < 0 { sf_shr_jam(sig, (0 - g) as nat) } else { sig };
    let rb = sig1 % 128;
    let s0 = (sig1 + 64) / 128;
    let s1 = if rb == 64 { s0 - (s0 % 2) } else { s0 };
    let g2 = if s1 == 0x1000000 { g1 + 1 } else { g1 };
    let s2 = if s1 == 0x1000000 { 0x800000 } else { s1 };
    if s2 == 0 {
        sf_pack(sign, 0, 0)
    } else if s2 >= 0x800000 && g2 > 253 {
        sf_inf_bits(sign)
    } else {
        sign * 0x80000000 + g2 * 0x800000 + s2
    }
}

/// 24-bit significand of `x` with the hidden bit made explicit; subnormal
/// inputs are normalized by doubling.
pub closed spec fn sf_norm_m(x: u32) -> int {
    if sf_exp(x) == 0 {
        sf_norm24_val(sf_frac(x))
    } else {
        0x800000 + sf_frac(x)
    }
}

/// Exponent that goes with `sf_norm_m`: the value of `x` is
/// `sf_norm_m(x) * 2^(sf_norm_e(x) - 150)` for finite nonzero `x`.
pub closed spec fn sf_norm_e(x: u32) -> int {
    if sf_exp(x) == 0 {
        1 - sf_norm24_shift(sf_frac(x))
    } else {
        sf_exp(x)
    }
}

/// binary32 multiplication.
pub closed spec fn sf_mul(a: u32, b: u32) -> u32 {
    let sign = if sf_sign(a) == sf_sign(b) { 0int } else { 1int };
    if sf_is_nan(a) || sf_is_nan(b) {
        sf_qnan() as u32
    } else if sf_is_inf(a) || sf_is_inf(b) {
        if sf_is_zero(a) || sf_is_zero(b) {
            sf_qnan() as u32
        } else {
            sf_inf_bits(sign) as u32
        }
    } else if sf_is_zero(a) || sf_is_zero(b) {
        sf_pack(sign, 0, 0) as u32
    } else {
        let p = sf_norm_m(a) * sf_norm_m(b);
        let e = sf_norm_e(a) + sf_norm_e(b);
        if p >= 0x800000000000 {
            sf_round_pack(sign, e - 127, sf_shr_jam(p, 17)) as u32
        } else {
            sf_round_pack(sign, e - 128, sf_shr_jam(p, 16)) as u32
        }
    }
}

/// Significand of `x` widened by 7 rounding bits, subnormals not normalized.
pub closed spec fn sf_wide_m(x: u32) -> int {
    (if sf_exp(x) == 0 {
        sf_frac(x)
    } else {
        0x800000 + sf_frac(x)
    }) * 128
}

/// Exponent that goes with `sf_wide_m`: stored exponent with subnormals
/// lifted to 1.
pub closed spec fn sf_wide_e(x: u32) -> int {
    if sf_exp(x) == 0 {
        1
    } else {
        sf_exp(x)
    }
}

/// Magnitude order: whether |a| >= |b|, for finite a, b.
pub closed spec fn sf_mag_ge(a: u32, b: u32) -> bool {
    sf_wide_e(a) > sf_wide_e(b) || (sf_wide_e(a) == sf_wide_e(b) && sf_wide_m(a) >= sf_wide_m(b))
}

/// Sum of two finite, nonzero operands with |a| >= |b|.
pub closed spec fn sf_add_core(a: u32, b: u32) -> int {
    let d = (sf_wide_e(a) - sf_wide_e(b)) as nat;
    let mb = sf_shr_jam(sf_wide_m(b), d);
    let g = sf_wide_e(a) - 1;
    if sf_sign(a) == sf_sign(b) {
        let sum = sf_wide_m(a) + mb;
        if sum >= 0x80000000 {
            sf_round_pack(sf_sign(a), g + 1, sf_jam_step(sum))
        } else {
            sf_round_pack(sf_sign(a), g, sum)
        }
    } else {
        let diff = sf_wide_m(a) - mb;
        if diff == 0 {
            0
        } else {
            let k = sf_norm31_shift(diff);
            sf_round_pack(sf_sign(a), g - k, sf_norm31_val(diff))
        }
    }
}

/// binary32 addition.
pub closed spec fn sf_add(a: u32, b: u32) -> u32 {
    if sf_is_nan(a) || sf_is_nan(b) {
        sf_qnan() as u32
    } else if sf_is_inf(a) {
        if sf_is_inf(b) && sf_sign(a) != sf_sign(b) {
            sf_qnan() as u32
        } else {
            a
        }
    } else if sf_is_inf(b) {
        b
    } else if sf_is_zero(a) && sf_is_zero(b) {
        if sf_sign(a) == sf_sign(b) {
            a
        } else {
            0u32
        }
    } else if sf_is_zero(a) {
        b
    } else if sf_is_zero(b) {
        a
    } else if sf_mag_ge(a, b) {
        sf_add_core(a, b) as u32
    } else {
        sf_add_core(b, a) as u32
    }
}

/// binary32 negation: the sign bit flips, NaN included.
pub open spec fn sf_neg(x: u32) -> u32 {
    if x >= 0x80000000 {
        (x - 0x80000000) as u32
    } else {
        (x + 0x80000000) as u32
    }
}

/// binary32 subtraction, defined as addition of the negation.
pub closed spec fn sf_sub(a: u32, b: u32) -> u32 {
    sf_add(a, sf_neg(b))
}

/// binary32 division.
pub closed spec fn sf_div(a: u32, b: u32) -> u32 {
    let sign = if sf_sign(a) == sf_sign(b) { 0int } else { 1int };
    if sf_is_nan(a) || sf_is_nan(b) {
        sf_qnan() as u32
    } else if sf_is_inf(a) {
        if sf_is_inf(b) {
            sf_qnan() as u32
        } else {
            sf_inf_bits(sign) as u32
        }
    } else if sf_is_inf(b) {
        sf_pack(sign, 0, 0) as u32
    } else if sf_is_zero(b) {
        if sf_is_zero(a) {
            sf_qnan() as u32
        } else {
            sf_inf_bits(sign) as u32
        }
    } else if sf_is_zero(a) {
        sf_pack(sign, 0, 0) as u32
    } else {
        let ma = sf_norm_m(a);
        let mb = sf_norm_m(b);
        let e = sf_norm_e(a) - sf_norm_e(b);
        let num = ma * 0x80000000;
        let q = num / mb;
        let r = num % mb;
        if q >= 0x80000000 {
            let q1 = q / 2;
            let sig = if (q % 2 != 0 || r != 0) && q1 % 2 == 0 { q1 + 1 } else { q1 };
            sf_round_pack(sign, e + 126, sig) as u32
        } else {
            let sig = if r != 0 && q % 2 == 0 { q + 1 } else { q };
            sf_round_pack(sign, e + 125, sig) as u32
        }
    }
}

/// Bit-by-bit integer square root refinement.
pub closed spec fn sf_isqrt_rec(x: int, r: int, bit: int) -> int
    decreases bit,
{
    if bit <= 0 {
        r
    } else {
        if (r + bit) * (r + bit) <= x {
            sf_isqrt_rec(x, r + bit, bit / 2)
        } else {
            sf_isqrt_rec(x, r, bit / 2)
        }
    }
}

/// Integer square root of a value below 2^62.
pub closed spec fn sf_isqrt(x: int) -> int {
    sf_isqrt_rec(x, 0, 0x40000000)
}

/// binary32 square root.
pub closed spec fn sf_sqrt(x: u32) -> u32 {
    if sf_is_nan(x) {
        sf_qnan() as u32
    } else if sf_is_zero(x) {
        x
    } else if sf_sign(x) == 1 {
        sf_qnan() as u32
    } else if sf_is_inf(x) {
        x
    } else {
        let m = sf_norm_m(x);
        let e = sf_norm_e(x);
        let k: int = if e % 2 == 0 { 38 } else { 37 };
        let radicand = m * pow2_spec((k + 0) as nat);
        let r0 = sf_isqrt(radicand);
        let sig = if r0 * r0 != radicand && r0 % 2 == 0 { r0 + 1 } else { r0 };
        let g = (e - 150 - k) / 2 + 156;
        sf_round_pack(0, g, sig) as u32
    }
}

/// 2^k.
pub closed spec fn pow2_spec(k: nat) -> int
    decreases k,
{
    if k == 0 {
        1
    } else {
        2 * pow2_spec((k - 1) as nat)
    }
}

// ---------------------------------------------------------------------------
// Executable twins.
// ---------------------------------------------------------------------------

/// Executable jammed right shift.
fn shr_jam_x(v: u64, k: u64) -> (r: u64)
    ensures
        r as int == sf_shr_jam(v as int, k as nat),
        r <= v,
{
    let mut cur = v;
    let mut i: u64 = 0;
    while i < k
        invariant
            0 <= i <= k,
            cur as int == sf_shr_jam(v as int, i as nat),
            cur <= v,
        decreases k - i,
    {
        let q = cur / 2;
        cur = if cur % 2 == 1 && q % 2 == 0 {
            q + 1
        } else {
            q
        };
        i += 1;
    }
    cur
}

/// A jammed shift never exceeds the plain shift by more than the jam bit,
/// and never falls below the plain shift.
proof fn lemma_shr_jam_bounds(v: int, k: nat)
    requires
        0 <= v,
    ensures
        v / pow2_spec(k) <= sf_shr_jam(v, k) <= v / pow2_spec(k) + 1,
    decreases k,
{
    lemma_pow2_pos(k);
    if k == 0 {
    } else {
        lemma_shr_jam_bounds(v, (k - 1) as nat);
        lemma_pow2_pos((k - 1) as nat);
        let p1 = pow2_spec((k - 1) as nat);
        let prev = sf_shr_jam(v, (k - 1) as nat);
        assert(v / pow2_spec(k) == (v / p1) / 2) by {
            vstd::arithmetic::div_mod::lemma_div_denominator(v, p1, 2);
        }
        assert(prev / 2 <= (v / p1 + 1) / 2) by {
            vstd::arithmetic::div_mod::lemma_div_is_ordered(prev, v / p1 + 1, 2);
        }
        assert((v / p1) / 2 <= prev / 2) by {
            vstd::arithmetic::div_mod::lemma_div_is_ordered(v / p1, prev, 2);
        }
        assert((v / p1 + 1) / 2 <= (v / p1) / 2 + 1);
    }
}

proof fn lemma_pow2_pos(k: nat)
    ensures
        pow2_spec(k) >= 1,
    decreases k,
{
    if k > 0 {
        lemma_pow2_pos((k - 1) as nat);
    }
}

proof fn lemma_pow2_mono_le(a: nat, b: nat)
    requires
        a <= b,
    ensures
        pow2_spec(a) <= pow2_spec(b),
    decreases b,
{
    lemma_pow2_pos(a);
    if a < b {
        lemma_pow2_mono_le(a, (b - 1) as nat);
    }
}

/// Executable normalization into the 24-bit range.
fn norm24_x(m0: u32) -> (r: (u32, u32))
    requires
        1 <= m0 < 0x800000,
    ensures
        r.0 as int == sf_norm24_val(m0 as int),
        r.1 as nat == sf_norm24_shift(m0 as int),
        0x800000 <= r.0 < 0x1000000,
        r.1 <= 23,
{
    let mut m = m0;
    let mut s: u32 = 0;
    while m < 0x800000
        invariant
            1 <= m < 0x1000000,
            sf_norm24_val(m as int) == sf_norm24_val(m0 as int),
            s as nat + sf_norm24_shift(m as int) == sf_norm24_shift(m0 as int),
            m as int == m0 as int * pow2_spec(s as nat),
            s <= 23,
        decreases (if m >= 0x800000 { 0int } else { 0x800000 - m }),
    {
        proof {
            lemma_pow2_pos((s + 1) as nat);
            assert(pow2_spec((s + 1) as nat) == 2 * pow2_spec(s as nat));
            assert(2 * (m as int) == m0 as int * pow2_spec((s + 1) as nat)) by (nonlinear_arith)
                requires
                    m as int == m0 as int * pow2_spec(s as nat),
                    pow2_spec((s + 1) as nat) == 2 * pow2_spec(s as nat);
            assert(pow2_spec((s + 1) as nat) <= 2 * (m as int)) by (nonlinear_arith)
                requires
                    2 * (m as int) == m0 as int * pow2_spec((s + 1) as nat),
                    m0 >= 1,
                    pow2_spec((s + 1) as nat) >= 1;
            if s + 1 > 23 {
                lemma_pow2_mono_le(24, (s + 1) as nat);
                reveal_with_fuel(pow2_spec, 25);
                assert(pow2_spec(24) == 0x1000000);
                assert(false);
            }
        }
        m = m * 2;
        s = s + 1;
    }
    (m, s)
}

/// Executable normalization into the 31-bit range.
fn norm31_x(m0: u64) -> (r: (u64, u64))
    requires
        1 <= m0 < 0x80000000,
    ensures
        r.0 as int == sf_norm31_val(m0 as int),
        r.1 as nat == sf_norm31_shift(m0 as int),
        0x40000000 <= r.0 < 0x80000000,
        r.1 <= 30,
{
    let mut m = m0;
    let mut s: u64 = 0;
    while m < 0x40000000
        invariant
            1 <= m < 0x80000000,
            sf_norm31_val(m as int) == sf_norm31_val(m0 as int),
            s as nat + sf_norm31_shift(m as int) == sf_norm31_shift(m0 as int),
            m as int == m0 as int * pow2_spec(s as nat),
            s <= 30,
        decreases (if m >= 0x40000000 { 0int } else { 0x40000000 - m }),
    {
        proof {
            lemma_pow2_pos((s + 1) as nat);
            assert(pow2_spec((s + 1) as nat) == 2 * pow2_spec(s as nat));
            assert(2 * (m as int) == m0 as int * pow2_spec((s + 1) as nat)) by (nonlinear_arith)
                requires
                    m as int == m0 as int * pow2_spec(s as nat),
                    pow2_spec((s + 1) as nat) == 2 * pow2_spec(s as nat);
            assert(pow2_spec((s + 1) as nat) <= 2 * (m as int)) by (nonlinear_arith)
                requires
                    2 * (m as int) == m0 as int * pow2_spec((s + 1) as nat),
                    m0 >= 1,
                    pow2_spec((s + 1) as nat) >= 1;
            if s + 1 > 30 {
                lemma_pow2_mono_le(31, (s + 1) as nat);
                reveal_with_fuel(pow2_spec, 32);
                assert(pow2_spec(31) == 0x80000000);
                assert(false);
            }
        }
        m = m * 2;
        s = s + 1;
    }
    (m, s)
}

/// Executable rounding and packing.
fn round_pack_x(sign: u32, g: i64, sig: u64) -> (r: u32)
    requires
        sign <= 1,
        sig <= 0x80000000,
        g > 0 ==> sig >= 0x40000000,
        -1000 <= g <= 1000,
    ensures
        r as int == sf_round_pack(sign as int, g as int, sig as int),
{
    let g1: i64 = if g < 0 { 0 } else { g };
    let sig1: u64 = if g < 0 { shr_jam_x(sig, (0 - g) as u64) } else { sig };
    let rb = sig1 % 128;
    let s0 = (sig1 + 64) / 128;
    assert(s0 <= 0x1000000);
    let s1 = if rb == 64 { s0 - (s0 % 2) } else { s0 };
    let g2: i64 = if s1 == 0x1000000 { g1 + 1 } else { g1 };
    let s2: u64 = if s1 == 0x1000000 { 0x800000 } else { s1 };
    assert(s2 < 0x1000000);
    if s2 == 0 {
        (sign as u32) * 0x80000000
    } else if s2 >= 0x800000 && g2 > 253 {
        sign * 0x80000000 + 255 * 0x800000
    } else {
        assert(g1 > 0 ==> sig1 >= 0x40000000);
        assert(g1 > 0 ==> s0 >= 0x800000);
        assert(g1 > 0 ==> s1 >= 0x800000);
        assert(s2 < 0x800000 ==> g2 == 0);
        assert(g2 <= 253 || s2 < 0x800000);
        sign * 0x80000000 + (g2 as u32) * 0x800000 + (s2 as u32)
    }
}

/// Executable field extraction.
fn unpack_x(x: u32) -> (r: (u32, u32, u32))
    ensures
        r.0 as int == sf_sign(x),
        r.1 as int == sf_exp(x),
        r.2 as int == sf_frac(x),
        r.0 <= 1,
        r.1 <= 255,
        r.2 < 0x800000,
{
    let sign = x / 0x80000000;
    let mag = x % 0x80000000;
    (sign, mag / 0x800000, mag % 0x800000)
}

/// Executable 24-bit significand and exponent of a finite nonzero value.
fn norm_parts_x(x: u32) -> (r: (u64, i64))
    requires
        !sf_is_nan(x),
        !sf_is_inf(x),
        !sf_is_zero(x),
    ensures
        r.0 as int == sf_norm_m(x),
        r.1 as int == sf_norm_e(x),
        0x800000 <= r.0 < 0x1000000,
        -22 <= r.1 <= 254,
{
    let (_, e, f) = unpack_x(x);
    if e == 0 {
        let (m, s) = norm24_x(f);
        (m as u64, 1 - (s as i64))
    } else {
        ((0x800000 + f) as u64, e as i64)
    }
}

/// Executable binary32 multiplication.
pub fn fmul(a: u32, b: u32) -> (r: u32)
    ensures
        r == sf_mul(a, b),
{
    let (sa, ea, fa) = unpack_x(a);
    let (sb, eb, fb) = unpack_x(b);
    let sign: u32 = if sa == sb { 0 } else { 1 };
    let a_nan = ea == 255 && fa != 0;
    let b_nan = eb == 255 && fb != 0;
    let a_inf = ea == 255 && fa == 0;
    let b_inf = eb == 255 && fb == 0;
    let a_zero = ea == 0 && fa == 0;
    let b_zero = eb == 0 && fb == 0;
    if a_nan || b_nan {
        0x7FC00000
    } else if a_inf || b_inf {
        if a_zero || b_zero {
            0x7FC00000
        } else {
            sign * 0x80000000 + 255 * 0x800000
        }
    } else if a_zero || b_zero {
        sign * 0x80000000
    } else {
        let (ma, xa) = norm_parts_x(a);
        let (mb, xb) = norm_parts_x(b);
        proof {
            assert(0x400000000000 <= (ma as int) * (mb as int) && (ma as int) * (mb as int) < 0x1000000000000) by (nonlinear_arith)
                requires
                    0x800000 <= ma < 0x1000000,
                    0x800000 <= mb < 0x1000000;
        }
        let p = ma * mb;
        let e: i64 = xa + xb;
        proof {
            reveal_with_fuel(pow2_spec, 18);
            lemma_shr_jam_bounds(p as int, 17);
            lemma_shr_jam_bounds(p as int, 16);
            vstd::arithmetic::div_mod::lemma_div_is_ordered(p as int, 0xFFFFFFFFFFFF, 131072);
            vstd::arithmetic::div_mod::lemma_div_is_ordered(p as int, 0xFFFFFFFFFFFF, 65536);
            if p >= 0x800000000000 {
                vstd::arithmetic::div_mod::lemma_div_is_ordered(0x800000000000, p as int, 131072);
            }
            if p >= 0x400000000000 {
                vstd::arithmetic::div_mod::lemma_div_is_ordered(0x400000000000, p as int, 65536);
            }
        }
        if p >= 0x800000000000 {
            let sig = shr_jam_x(p, 17);
            assert(0x40000000 <= sig as int <= 0x80000000);
            round_pack_x(sign, e - 127, sig)
        } else {
            let sig = shr_jam_x(p, 16);
            assert(0x40000000 <= sig as int <= 0x80000000);
            round_pack_x(sign, e - 128, sig)
        }
    }
}

/// Executable binary32 addition.
pub fn fadd(a: u32, b: u32) -> (r: u32)
    ensures
        r == sf_add(a, b),
{
    let (sa, ea, fa) = unpack_x(a);
    let (sb, eb, fb) = unpack_x(b);
    let a_nan = ea == 255 && fa != 0;
    let b_nan = eb == 255 && fb != 0;
    let a_inf = ea == 255 && fa == 0;
    let b_inf = eb == 255 && fb == 0;
    let a_zero = ea == 0 && fa == 0;
    let b_zero = eb == 0 && fb == 0;
    if a_nan || b_nan {
        0x7FC00000
    } else if a_inf {
        if b_inf && sa != sb {
            0x7FC00000
        } else {
            a
        }
    } else if b_inf {
        b
    } else if a_zero && b_zero {
        if sa == sb {
            a
        } else {
            0
        }
    } else if a_zero {
        b
    } else if b_zero {
        a
    } else {
        let wea: i64 = if ea == 0 { 1 } else { ea as i64 };
        let web: i64 = if eb == 0 { 1 } else { eb as i64 };
        let wma: u64 = (if ea == 0 { fa as u64 } else { 0x800000 + fa as u64 }) * 128;
        let wmb: u64 = (if eb == 0 { fb as u64 } else { 0x800000 + fb as u64 }) * 128;
        if wea > web || (wea == web && wma >= wmb) {
            add_core_x(a, b, sa, wea, wma, sb, web, wmb)
        } else {
            add_core_x(b, a, sb, web, wmb, sa, wea, wma)
        }
    }
}

/// Executable core of addition: both operands finite and nonzero, |a| >= |b|.
fn add_core_x(a: u32, b: u32, sa: u32, wea: i64, wma: u64, sb: u32, web: i64, wmb: u64) -> (r: u32)
    requires
        !sf_is_nan(a) && !sf_is_inf(a) && !sf_is_zero(a),
        !sf_is_nan(b) && !sf_is_inf(b) && !sf_is_zero(b),
        sa as int == sf_sign(a),
        sb as int == sf_sign(b),
        wea as int == sf_wide_e(a),
        web as int == sf_wide_e(b),
        wma as int == sf_wide_m(a),
        wmb as int == sf_wide_m(b),
        sf_mag_ge(a, b),
        sa <= 1,
    ensures
        r as int == sf_add_core(a, b),
{
    assert(wma < 0x80000000 && wmb < 0x80000000);
    assert(1 <= wea <= 255 && 1 <= web <= 255);
    assert(wea >= web);
    let d: u64 = (wea - web) as u64;
    let mb = shr_jam_x(wmb, d);
    let g: i64 = wea - 1;
    if sa == sb {
        let sum = wma + mb;
        if sum >= 0x80000000 {
            let q = sum / 2;
            let jammed = if sum % 2 == 1 && q % 2 == 0 { q + 1 } else { q };
            assert(jammed as int == sf_jam_step(sum as int));
            assert(0x40000000 <= jammed <= 0x80000000);
            round_pack_x(sa, g + 1, jammed)
        } else {
            assert(g > 0 ==> wea >= 2);
            assert(wea >= 2 ==> sf_exp(a) >= 2);
            assert(sf_exp(a) >= 1 ==> wma >= 0x40000000);
            round_pack_x(sa, g, sum)
        }
    } else {
        assert(mb <= wmb);
        assert(wma >= mb) by {
            if d == 0 {
                assert(sf_shr_jam(wmb as int, 0) == wmb as int);
            } else {
                lemma_shr_jam_bounds(wmb as int, d as nat);
                lemma_pow2_mono_le(1, d as nat);
                reveal_with_fuel(pow2_spec, 3);
                assert(pow2_spec(1) == 2);
                assert(wmb as int / pow2_spec(d as nat) <= wmb as int / 2) by {
                    vstd::arithmetic::div_mod::lemma_div_is_ordered_by_denominator(
                        wmb as int,
                        2,
                        pow2_spec(d as nat),
                    );
                }
                assert(mb as int <= wmb as int / 2 + 1);
                assert(sf_exp(a) >= 1);
                assert(wma >= 0x40000000);
            }
        }
        let diff = wma - mb;
        if diff == 0 {
            assert(sf_add_core(a, b) == 0);
            0
        } else {
            let (nv, ns) = norm31_x(diff);
            round_pack_x(sa, g - ns as i64, nv)
        }
    }
}

/// Executable binary32 negation.
pub fn fneg(x: u32) -> (r: u32)
    ensures
        r == sf_neg(x),
{
    if x >= 0x80000000 {
        x - 0x80000000
    } else {
        x + 0x80000000
    }
}

/// Executable binary32 subtraction.
pub fn fsub(a: u32, b: u32) -> (r: u32)
    ensures
        r == sf_sub(a, b),
{
    fadd(a, fneg(b))
}

/// Executable binary32 division.
pub fn fdiv(a: u32, b: u32) -> (r: u32)
    ensures
        r == sf_div(a, b),
{
    let (sa, ea, fa) = unpack_x(a);
    let (sb, eb, fb) = unpack_x(b);
    let sign: u32 = if sa == sb { 0 } else { 1 };
    let a_nan = ea == 255 && fa != 0;
    let b_nan = eb == 255 && fb != 0;
    let a_inf = ea == 255 && fa == 0;
    let b_inf = eb == 255 && fb == 0;
    let a_zero = ea == 0 && fa == 0;
    let b_zero = eb == 0 && fb == 0;
    if a_nan || b_nan {
        0x7FC00000
    } else if a_inf {
        if b_inf {
            0x7FC00000
        } else {
            sign * 0x80000000 + 255 * 0x800000
        }
    } else if b_inf {
        sign * 0x80000000
    } else if b_zero {
        if a_zero {
            0x7FC00000
        } else {
            sign * 0x80000000 + 255 * 0x800000
        }
    } else if a_zero {
        sign * 0x80000000
    } else {
        let (ma, xa) = norm_parts_x(a);
        let (mb, xb) = norm_parts_x(b);
        let e: i64 = xa - xb;
        let num = ma * 0x80000000;
        assert(num < 0x8000000000000000) by (nonlinear_arith)
            requires
                ma < 0x1000000,
                num == ma * 0x80000000;
        let q = num / mb;
        let rem = num % mb;
        proof {
            vstd::arithmetic::div_mod::lemma_fundamental_div_mod(num as int, mb as int);
            assert(q < 0x100000000 && q >= 0x40000000) by (nonlinear_arith)
                requires
                    num as int == mb as int * (q as int) + rem as int,
                    0 <= rem as int && (rem as int) < (mb as int),
                    num == ma * 0x80000000,
                    0x800000 <= ma < 0x1000000,
                    0x800000 <= mb < 0x1000000;
        }
        if q >= 0x80000000 {
            let q1 = q / 2;
            let sig = if (q % 2 != 0 || rem != 0) && q1 % 2 == 0 { q1 + 1 } else { q1 };
            round_pack_x(sign, e + 126, sig)
        } else {
            let sig = if rem != 0 && q % 2 == 0 { q + 1 } else { q };
            round_pack_x(sign, e + 125, sig)
        }
    }
}

/// Executable integer square root refinement.
fn isqrt_x(x: u64) -> (r: u64)
    requires
        x < 0x4000000000000000,
    ensures
        r as int == sf_isqrt(x as int),
        r < 0x80000000,
        r * r <= x,
        (r + 1) * (r + 1) > x,
{
    let mut r: u64 = 0;
    let mut bit: u64 = 0x40000000;
    let ghost mut j: nat = 30;
    proof {
        reveal_with_fuel(pow2_spec, 31);
        assert((0x80000000int) * (0x80000000int) == 0x4000000000000000int) by (nonlinear_arith);
    }
    while bit > 0
        invariant
            x < 0x4000000000000000,
            sf_isqrt_rec(x as int, r as int, bit as int) == sf_isqrt(x as int),
            r + 2 * bit <= 0x80000000,
            bit <= 0x40000000,
            bit > 0 ==> bit as int == pow2_spec(j),
            r as int * r as int <= x as int,
            (r as int + (if bit == 0 { 1int } else { 2 * bit as int }))
                * (r as int + (if bit == 0 { 1int } else { 2 * bit as int })) > x as int,
        decreases bit,
    {
        let cand = r + bit;
        assert(cand * cand < 0x10000000000000000) by (nonlinear_arith)
            requires cand <= 0x80000000;
        proof {
            if j > 0 {
                assert(pow2_spec(j) == 2 * pow2_spec((j - 1) as nat));
                lemma_pow2_pos((j - 1) as nat);
                assert(bit % 2 == 0);
                assert(bit as int / 2 == pow2_spec((j - 1) as nat));
            } else {
                assert(bit == 1);
            }
        }
        if cand * cand <= x {
            r = cand;
        }
        bit = bit / 2;
        proof {
            if j > 0 {
                j = (j - 1) as nat;
            }
        }
    }
    proof {
        assert((r as int + 1) * (r as int + 1) > x as int);
        assert(r as int * r as int <= x as int);
        assert(r < 0x80000000) by (nonlinear_arith)
            requires
                (r as int + 1) * (r as int + 1) > x as int,
                r as int * r as int <= x as int,
                x < 0x4000000000000000,
                r >= 0;
    }
    r
}

/// Executable pow2 for the square-root radicand scaling.
fn pow2_x(k: u64) -> (r: u64)
    requires
        k < 63,
    ensures
        r as int == pow2_spec(k as nat),
        r >= 1,
{
    let mut r: u64 = 1;
    let mut i: u64 = 0;
    while i < k
        invariant
            i <= k < 63,
            r as int == pow2_spec(i as nat),
        decreases k - i,
    {
        proof {
            lemma_pow2_mono_le((i + 1) as nat, 62);
            reveal_with_fuel(pow2_spec, 63);
        }
        r = r * 2;
        i += 1;
    }
    proof {
        lemma_pow2_pos(k as nat);
    }
    r
}

/// Executable binary32 square root.
pub fn fsqrt(x: u32) -> (r: u32)
    ensures
        r == sf_sqrt(x),
{
    let (s, e, f) = unpack_x(x);
    let nan = e == 255 && f != 0;
    let zero = e == 0 && f == 0;
    let inf = e == 255 && f == 0;
    if nan {
        0x7FC00000
    } else if zero {
        x
    } else if s == 1 {
        0x7FC00000
    } else if inf {
        x
    } else {
        let (m, xe) = norm_parts_x(x);
        let k: u64 = if ((xe % 2) + 2) % 2 == 0 { 38 } else { 37 };
        let p = pow2_x(k);
        proof {
            reveal_with_fuel(pow2_spec, 39);
        }
        assert(p <= 0x4000000000);
        assert(p >= 0x2000000000);
        proof {
            assert(0x1000000000000000 <= (m as int) * (p as int) && (m as int) * (p as int) < 0x4000000000000000) by (nonlinear_arith)
                requires
                    0x800000 <= m < 0x1000000,
                    0x2000000000 <= p <= 0x4000000000;
        }
        let radicand = m * p;
        let r0 = isqrt_x(radicand);
        assert(r0 >= 0x40000000) by (nonlinear_arith)
            requires
                (r0 as int + 1) * (r0 as int + 1) > radicand as int,
                radicand >= 0x1000000000000000,
                r0 >= 0;
        let sig = if r0 * r0 != radicand && r0 % 2 == 0 { r0 + 1 } else { r0 };
        let g: i64 = (xe - 150 - (k as i64)) / 2 + 156;
        round_pack_x(0, g, sig)
    }
}

// ---------------------------------------------------------------------------
// Score ordering.
// ---------------------------------------------------------------------------

/// Total order key for scores: NaN scores compare equal to each other and
/// below every other score; negative and positive zero compare equal; all
/// remaining values are ordered as the real numbers they denote.
pub open spec fn score_key(x: u32) -> int {
    if sf_is_nan(x) {
        -0x80000001
    } else if sf_sign(x) == 1 {
        0 - sf_mag(x)
    } else {
        sf_mag(x)
    }
}

/// Executable score key.
pub fn score_key_x(x: u32) -> (r: i64)
    ensures
        r as int == score_key(x),
{
    let mag = (x % 0x80000000) as i64;
    let exp = mag / 0x800000;
    let frac = mag % 0x800000;
    if exp == 255 && frac != 0 {
        -0x80000001
    } else if x >= 0x80000000 {
        0 - mag
    } else {
        mag
    }
}

} // verus!
