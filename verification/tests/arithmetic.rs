use mandelbrot::double::Double;

fn next(state: &mut u64) -> u64 {
    let mut x = *state;
    x ^= x << 13;
    x ^= x >> 7;
    x ^= x << 17;
    *state = x;
    x
}

/// Patterns that fall into every class: uniform bits, small exponents
/// around one, subnormals, and values near the ends of the range.
fn sample(state: &mut u64) -> u64 {
    let r = next(state);
    let pick = next(state) % 8;
    let sign = r & 0x8000_0000_0000_0000;
    let frac = r & 0x000f_ffff_ffff_ffff;
    match pick {
        0 => r,
        1 => sign | frac,
        2 => sign | (((1023 - 30 + next(state) % 60) << 52) | frac),
        3 => sign | (((1 + next(state) % 4) << 52) | frac),
        4 => sign | (((2043 + next(state) % 4) << 52) | frac),
        5 => sign | (((1023 - 3 + next(state) % 6) << 52) | (frac & 0x000f_0000_0000_0000)),
        6 => sign | (((next(state) % 2047) << 52) | (frac & 0x7)),
        _ => sign | ((1023 - 60 + next(state) % 120) << 52),
    }
}

fn same(ours: Double, theirs: f64) -> bool {
    if theirs.is_nan() {
        let m = ours.to_bits() & 0x7fff_ffff_ffff_ffff;
        m > 0x7ff0_0000_0000_0000
    } else {
        ours.to_bits() == theirs.to_bits()
    }
}

#[test]
fn product_agrees_with_hardware() {
    let mut state = 0x9e37_79b9_7f4a_7c15u64;
    for _ in 0..200_000 {
        let a = sample(&mut state);
        let b = sample(&mut state);
        let ours = Double::from_bits(a).product(Double::from_bits(b));
        let theirs = f64::from_bits(a) * f64::from_bits(b);
        assert!(same(ours, theirs), "{:#x} * {:#x}: {:#x} vs {:#x}", a, b, ours.to_bits(), theirs.to_bits());
    }
}

#[test]
fn sum_agrees_with_hardware() {
    let mut state = 0x2545_f491_4f6c_dd1du64;
    for _ in 0..200_000 {
        let a = sample(&mut state);
        let b = sample(&mut state);
        let ours = Double::from_bits(a).sum(Double::from_bits(b));
        let theirs = f64::from_bits(a) + f64::from_bits(b);
        assert!(same(ours, theirs), "{:#x} + {:#x}: {:#x} vs {:#x}", a, b, ours.to_bits(), theirs.to_bits());
    }
}

#[test]
fn difference_agrees_with_hardware() {
    let mut state = 0x1234_5678_9abc_def1u64;
    for _ in 0..200_000 {
        let a = sample(&mut state);
        let b = sample(&mut state);
        let ours = Double::from_bits(a).difference(Double::from_bits(b));
        let theirs = f64::from_bits(a) - f64::from_bits(b);
        assert!(same(ours, theirs), "{:#x} - {:#x}: {:#x} vs {:#x}", a, b, ours.to_bits(), theirs.to_bits());
    }
}

#[test]
fn order_agrees_with_hardware() {
    let mut state = 0x0fed_cba9_8765_4321u64;
    for _ in 0..200_000 {
        let a = sample(&mut state);
        let b = if next(&mut state) % 4 == 0 { a ^ (next(&mut state) & 0x8000_0000_0000_0003) } else { sample(&mut state) };
        let x = Double::from_bits(a);
        let y = Double::from_bits(b);
        assert_eq!(x.lt(y), f64::from_bits(a) < f64::from_bits(b));
        assert_eq!(x.le(y), f64::from_bits(a) <= f64::from_bits(b));
    }
}

#[test]
fn quotient_agrees_with_hardware() {
    let mut state = 0x7777_1234_9999_0001u64;
    for _ in 0..200_000 {
        let a = sample(&mut state);
        let b = sample(&mut state);
        let ours = Double::from_bits(a).quotient(Double::from_bits(b));
        let theirs = f64::from_bits(a) / f64::from_bits(b);
        assert!(same(ours, theirs), "{:#x} / {:#x}: {:#x} vs {:#x}", a, b, ours.to_bits(), theirs.to_bits());
    }
}

#[test]
fn quotient_of_small_whole_numbers_agrees_with_hardware() {
    for a in 0u32..200 {
        for b in 0u32..200 {
            let ours = Double::from_u32(a).quotient(Double::from_u32(b));
            let theirs = (a as f64) / (b as f64);
            assert!(same(ours, theirs), "{} / {}", a, b);
        }
    }
}

#[test]
fn floor_agrees_with_hardware() {
    let mut state = 0x0bad_cafe_dead_beefu64;
    for _ in 0..200_000 {
        let a = sample(&mut state);
        let a = if next(&mut state) % 2 == 0 {
            (a & 0x800f_ffff_ffff_ffff) | ((1010 + next(&mut state) % 50) << 52)
        } else {
            a
        };
        let ours = Double::from_bits(a).floor_u32();
        let theirs = f64::from_bits(a).floor() as u32;
        assert_eq!(ours, theirs, "{:#x}", a);
    }
}

#[test]
fn whole_numbers_agree_with_hardware() {
    let mut state = 0x5555_aaaa_1234_4321u64;
    for n in 0u32..5000 {
        assert_eq!(Double::from_u32(n).to_bits(), (n as f64).to_bits());
    }
    for _ in 0..100_000 {
        let n = next(&mut state) as u32;
        assert_eq!(Double::from_u32(n).to_bits(), (n as f64).to_bits());
        assert_eq!(Double::from_u32(n).floor_u32(), n);
    }
    assert_eq!(Double::from_u32(u32::MAX).to_bits(), (u32::MAX as f64).to_bits());
}
