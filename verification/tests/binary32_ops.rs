// Differential check of the library's verified binary32 arithmetic
// against the hardware floating-point unit, bit for bit. NaN results are
// compared as a class: any NaN matches any NaN.

use vectaraft::fbits::{fadd, fdiv, fmul, fneg, fsqrt, fsub};

fn is_nan_bits(x: u32) -> bool {
    (x & 0x7F800000) == 0x7F800000 && (x & 0x007FFFFF) != 0
}

fn same(a: u32, b: u32) -> bool {
    a == b || (is_nan_bits(a) && is_nan_bits(b))
}

fn interesting() -> Vec<u32> {
    let mut v: Vec<u32> = vec![
        0.0f32.to_bits(),
        (-0.0f32).to_bits(),
        1.0f32.to_bits(),
        (-1.0f32).to_bits(),
        0.5f32.to_bits(),
        2.0f32.to_bits(),
        3.0f32.to_bits(),
        0.1f32.to_bits(),
        0.9f32.to_bits(),
        1e-30f32.to_bits(),
        1e30f32.to_bits(),
        f32::MAX.to_bits(),
        f32::MIN_POSITIVE.to_bits(),
        f32::INFINITY.to_bits(),
        f32::NEG_INFINITY.to_bits(),
        f32::NAN.to_bits(),
        1,          // smallest subnormal
        0x007FFFFF, // largest subnormal
        0x00800000, // smallest normal
        0x7F7FFFFF, // largest finite
        0x3F800001,
        0x34000000,
        0x80000001,
    ];
    // Deterministic pseudo-random patterns.
    let mut x: u32 = 0x12345678;
    for _ in 0..300 {
        x = x.wrapping_mul(1664525).wrapping_add(1013904223);
        v.push(x);
    }
    v
}

#[test]
fn addition_matches_hardware() {
    let vals = interesting();
    for &a in &vals {
        for &b in &vals {
            let hw = (f32::from_bits(a) + f32::from_bits(b)).to_bits();
            let sw = fadd(a, b);
            assert!(same(hw, sw), "add {a:#x} {b:#x}: hw {hw:#x} sw {sw:#x}");
        }
    }
}

#[test]
fn subtraction_matches_hardware() {
    let vals = interesting();
    for &a in &vals {
        for &b in &vals {
            let hw = (f32::from_bits(a) - f32::from_bits(b)).to_bits();
            let sw = fsub(a, b);
            assert!(same(hw, sw), "sub {a:#x} {b:#x}: hw {hw:#x} sw {sw:#x}");
        }
    }
}

#[test]
fn multiplication_matches_hardware() {
    let vals = interesting();
    for &a in &vals {
        for &b in &vals {
            let hw = (f32::from_bits(a) * f32::from_bits(b)).to_bits();
            let sw = fmul(a, b);
            assert!(same(hw, sw), "mul {a:#x} {b:#x}: hw {hw:#x} sw {sw:#x}");
        }
    }
}

#[test]
fn division_matches_hardware() {
    let vals = interesting();
    for &a in &vals {
        for &b in &vals {
            let hw = (f32::from_bits(a) / f32::from_bits(b)).to_bits();
            let sw = fdiv(a, b);
            assert!(same(hw, sw), "div {a:#x} {b:#x}: hw {hw:#x} sw {sw:#x}");
        }
    }
}

#[test]
fn square_root_matches_hardware() {
    for a in interesting() {
        let hw = f32::from_bits(a).sqrt().to_bits();
        let sw = fsqrt(a);
        assert!(same(hw, sw), "sqrt {a:#x}: hw {hw:#x} sw {sw:#x}");
    }
}

#[test]
fn negation_flips_the_sign_bit() {
    for a in interesting() {
        assert_eq!(fneg(a), (-f32::from_bits(a)).to_bits());
    }
}
