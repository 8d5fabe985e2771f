//! Arithmetic on bit patterns, against the host's.
use cairn_runtime::engine::float::{
    Rounding, Width, float_abs, float_add, float_copysign, float_demote, float_div, float_equal,
    float_from_int, float_less, float_max, float_min, float_mul, float_neg, float_promote,
    float_round, float_sqrt, float_sub, float_to_int, nan_of,
};

/// Patterns of both signs around every boundary of the format.
fn singles() -> Vec<u32> {
    let magnitudes: [u32; 26] = [
        0x0000_0000, 0x0000_0001, 0x0000_0002, 0x007f_ffff, 0x0080_0000, 0x0080_0001, 0x00ff_ffff,
        0x3300_0000, 0x3380_0001, 0x3e80_0000, 0x3eff_ffff, 0x3f00_0000, 0x3f7f_ffff, 0x3f80_0000,
        0x3f80_0001, 0x3fc0_0000, 0x4020_0000, 0x4040_0000, 0x4b7f_ffff, 0x4b80_0001, 0x4effffff,
        0x5f00_0000, 0x7f7f_ffff, 0x7f80_0000, 0x7fc0_0000, 0x7f80_0001,
    ];
    magnitudes.iter().flat_map(|m| [*m, m | 0x8000_0000]).collect()
}

fn doubles() -> Vec<u64> {
    let magnitudes: [u64; 26] = [
        0,
        1,
        2,
        0x000f_ffff_ffff_ffff,
        0x0010_0000_0000_0000,
        0x0010_0000_0000_0001,
        0x001f_ffff_ffff_ffff,
        0x36a0_0000_0000_0000,
        0x380f_ffff_e000_0000,
        0x3810_0000_0000_0000,
        0x3ca0_0000_0000_0000,
        0x3fd0_0000_0000_0000,
        0x3fdf_ffff_ffff_ffff,
        0x3fe0_0000_0000_0000,
        0x3ff0_0000_0000_0000,
        0x3ff0_0000_0000_0001,
        0x3ff8_0000_0000_0000,
        0x4004_0000_0000_0000,
        0x4340_0000_0000_0001,
        0x43df_ffff_ffff_ffff,
        0x43e0_0000_0000_0000,
        0x47ef_ffff_efff_ffff,
        0x7fef_ffff_ffff_ffff,
        0x7ff0_0000_0000_0000,
        0x7ff8_0000_0000_0000,
        0x7ff0_0000_0000_0001,
    ];
    magnitudes.iter().flat_map(|m| [*m, m | 0x8000_0000_0000_0000]).collect()
}

fn bits32(x: f32) -> u64 {
    // What the host computed, not what an optimiser knows about it.
    let x = std::hint::black_box(x);
    if x.is_nan() { 0x7fc0_0000 } else { u64::from(x.to_bits()) }
}

fn bits64(x: f64) -> u64 {
    let x = std::hint::black_box(x);
    if x.is_nan() { 0x7ff8_0000_0000_0000 } else { x.to_bits() }
}

/// Pseudorandom patterns, the same on every run.
fn scattered(n: usize) -> Vec<u64> {
    let mut x: u64 = 0x9e37_79b9_7f4a_7c15;
    let mut out = Vec::new();
    for _ in 0..n {
        x ^= x << 13;
        x ^= x >> 7;
        x ^= x << 17;
        out.push(x);
    }
    out
}

#[test]
fn single_arithmetic_is_the_hosts() {
    let w = Width::Single;
    let mut patterns = singles();
    patterns.extend(scattered(60).into_iter().map(|x| (x >> 32) as u32));
    for &a in &patterns {
        for &b in &patterns {
            let (x, y) = (f32::from_bits(a), f32::from_bits(b));
            let (p, q) = (u64::from(a), u64::from(b));
            assert_eq!(float_add(w, p, q), bits32(x + y), "{a:#x} + {b:#x}");
            assert_eq!(float_sub(w, p, q), bits32(x - y), "{a:#x} - {b:#x}");
            assert_eq!(float_mul(w, p, q), bits32(x * y), "{a:#x} * {b:#x}");
            assert_eq!(float_div(w, p, q), bits32(x / y), "{a:#x} / {b:#x}");
            assert_eq!(float_less(w, p, q), x < y, "{a:#x} < {b:#x}");
            assert_eq!(float_equal(w, p, q), x == y, "{a:#x} == {b:#x}");
            assert_eq!(float_copysign(w, p, q), u64::from(x.copysign(y).to_bits()));
        }
    }
}

#[test]
fn double_arithmetic_is_the_hosts() {
    let w = Width::Double;
    let mut patterns = doubles();
    patterns.extend(scattered(60));
    for &a in &patterns {
        for &b in &patterns {
            let (x, y) = (f64::from_bits(a), f64::from_bits(b));
            assert_eq!(float_add(w, a, b), bits64(x + y), "{a:#x} + {b:#x}");
            assert_eq!(float_sub(w, a, b), bits64(x - y), "{a:#x} - {b:#x}");
            assert_eq!(float_mul(w, a, b), bits64(x * y), "{a:#x} * {b:#x}");
            assert_eq!(float_div(w, a, b), bits64(x / y), "{a:#x} / {b:#x}");
            assert_eq!(float_less(w, a, b), x < y, "{a:#x} < {b:#x}");
            assert_eq!(float_equal(w, a, b), x == y, "{a:#x} == {b:#x}");
            assert_eq!(float_copysign(w, a, b), x.copysign(y).to_bits());
        }
    }
}

#[test]
fn single_functions_are_the_hosts() {
    let w = Width::Single;
    let mut patterns = singles();
    patterns.extend(scattered(2000).into_iter().map(|x| (x >> 32) as u32));
    for &a in &patterns {
        let x = f32::from_bits(a);
        let p = u64::from(a);
        assert_eq!(float_sqrt(w, p), bits32(x.sqrt()), "sqrt {a:#x}");
        assert_eq!(float_round(w, Rounding::Up, p), bits32(x.ceil()), "ceil {a:#x}");
        assert_eq!(float_round(w, Rounding::Down, p), bits32(x.floor()), "floor {a:#x}");
        assert_eq!(float_round(w, Rounding::Zero, p), bits32(x.trunc()), "trunc {a:#x}");
        assert_eq!(float_round(w, Rounding::Even, p), bits32(x.round_ties_even()), "{a:#x}");
        assert_eq!(float_promote(p), bits64(f64::from(x)), "promote {a:#x}");
        assert_eq!(float_abs(w, p), u64::from(a & 0x7fff_ffff));
        assert_eq!(float_neg(w, p), u64::from(a ^ 0x8000_0000));
    }
}

#[test]
fn double_functions_are_the_hosts() {
    let w = Width::Double;
    let mut patterns = doubles();
    patterns.extend(scattered(2000));
    for &a in &patterns {
        let x = f64::from_bits(a);
        assert_eq!(float_sqrt(w, a), bits64(x.sqrt()), "sqrt {a:#x}");
        assert_eq!(float_round(w, Rounding::Up, a), bits64(x.ceil()), "ceil {a:#x}");
        assert_eq!(float_round(w, Rounding::Down, a), bits64(x.floor()), "floor {a:#x}");
        assert_eq!(float_round(w, Rounding::Zero, a), bits64(x.trunc()), "trunc {a:#x}");
        assert_eq!(float_round(w, Rounding::Even, a), bits64(x.round_ties_even()), "{a:#x}");
        assert_eq!(float_demote(a), bits32(x as f32), "demote {a:#x}");
    }
}

#[test]
fn integers_convert_as_on_the_host() {
    for &n in &scattered(2000) {
        for n in [n, n >> 11, n >> 40, n >> 63] {
            assert_eq!(float_from_int(Width::Single, false, n), bits32(n as f32), "{n}");
            assert_eq!(float_from_int(Width::Double, false, n), bits64(n as f64), "{n}");
            if n > 0 {
                assert_eq!(float_from_int(Width::Double, true, n), bits64(-(n as f64)), "-{n}");
            }
        }
    }
    for &a in &doubles() {
        let x = f64::from_bits(a);
        match float_to_int(Width::Double, a) {
            None => assert!(x.is_nan() || x.abs() >= 18_446_744_073_709_551_616.0, "{a:#x}"),
            Some((negative, n)) => {
                assert_eq!(n as f64, x.abs().trunc(), "{a:#x}");
                assert_eq!(negative, x.is_sign_negative(), "{a:#x}");
            }
        }
    }
}

#[test]
fn minimum_and_maximum_order_zeros_and_spread_nans() {
    let w = Width::Double;
    let (plus, minus) = (0u64, 0x8000_0000_0000_0000u64);
    let (one, two) = (1.0f64.to_bits(), 2.0f64.to_bits());
    assert_eq!(float_min(w, plus, minus), minus);
    assert_eq!(float_min(w, minus, plus), minus);
    assert_eq!(float_max(w, plus, minus), plus);
    assert_eq!(float_max(w, minus, plus), plus);
    assert_eq!(float_min(w, one, two), one);
    assert_eq!(float_max(w, one, two), two);
    let payload = 0xfff0_0000_0000_1234;
    assert_eq!(float_min(w, payload, one), nan_of(w));
    assert_eq!(float_max(w, one, payload), nan_of(w));
}

#[test]
fn only_nan_is_unequal_to_itself() {
    for &a in &doubles() {
        assert_eq!(float_equal(Width::Double, a, a), !f64::from_bits(a).is_nan(), "{a:#x}");
    }
}

#[test]
fn every_nan_that_comes_out_is_canonical() {
    assert_eq!(nan_of(Width::Single), 0x7fc0_0000);
    assert_eq!(nan_of(Width::Double), 0x7ff8_0000_0000_0000);
    // Payloads and signs go in; they do not come out.
    for nan in [0x7f80_0001u64, 0xffc1_2345, 0xffff_ffff] {
        assert_eq!(float_add(Width::Single, nan, 0x3f80_0000), 0x7fc0_0000);
        assert_eq!(float_sqrt(Width::Single, nan), 0x7fc0_0000);
        assert_eq!(float_round(Width::Single, Rounding::Up, nan), 0x7fc0_0000);
        assert_eq!(float_promote(nan), 0x7ff8_0000_0000_0000);
    }
    // Infinity less infinity, and the root of a negative number.
    assert_eq!(float_sub(Width::Single, 0x7f80_0000, 0x7f80_0000), 0x7fc0_0000);
    assert_eq!(float_sqrt(Width::Single, 0xbf80_0000), 0x7fc0_0000);
}

#[test]
fn addition_and_multiplication_commute() {
    let w = Width::Double;
    for &a in &doubles() {
        for &b in &doubles() {
            assert_eq!(float_add(w, a, b), float_add(w, b, a));
            assert_eq!(float_mul(w, a, b), float_mul(w, b, a));
        }
    }
}

#[test]
fn representable_numbers_are_exact() {
    // Nothing is lost on the way up to a double and back.
    for &a in &singles() {
        if !f32::from_bits(a).is_nan() {
            assert_eq!(float_demote(float_promote(u64::from(a))), u64::from(a), "{a:#x}");
        }
    }
    // Halfway cases go to the even neighbour.
    assert_eq!(float_from_int(Width::Single, false, 16_777_217), bits32(16_777_216.0));
    assert_eq!(float_from_int(Width::Single, false, 16_777_219), bits32(16_777_220.0));
}
