use mandelbrot::double::Double;
use mandelbrot::palette::{
    angle, angles, build_palette, channel_level, entry_color, interior, palette_angles, Color,
    Palette, Phase, PhaseTriple,
};

fn d(x: f64) -> Double {
    Double::from_bits(x.to_bits())
}

fn sine(a: Double) -> Double {
    d(f64::from_bits(a.to_bits()).sin())
}

fn palette(count: u32) -> Palette {
    let mut sines = Vec::new();
    for a in palette_angles(count) {
        sines.push(PhaseTriple { zero: sine(a.zero), third: sine(a.third), two_thirds: sine(a.two_thirds) });
    }
    build_palette(&sines)
}

/// One channel written with hardware arithmetic.
fn hardware_level(c: u32, i: u32, phase: f64) -> u8 {
    let s = (std::f64::consts::PI / (c as f64) * 2.0 * (i as f64) + phase).sin();
    (((s * 127.0) + 128.0).floor()) as u8
}

#[test]
fn angle_agrees_with_hardware() {
    for &c in &[1u32, 2, 3, 5, 30, 255, 256, 1000, 4_000_000_000] {
        for &i in &[0u32, 1, 2, 4, 29, 100, 999] {
            let zero = std::f64::consts::PI / (c as f64) * 2.0 * (i as f64) + 0.0 * std::f64::consts::PI * 2.0 / 3.0;
            let third = std::f64::consts::PI / (c as f64) * 2.0 * (i as f64) + 1.0 * std::f64::consts::PI * 2.0 / 3.0;
            let two = std::f64::consts::PI / (c as f64) * 2.0 * (i as f64) + 2.0 * std::f64::consts::PI * 2.0 / 3.0;
            assert_eq!(angle(c, i, Phase::Zero).to_bits(), zero.to_bits());
            assert_eq!(angle(c, i, Phase::Third).to_bits(), third.to_bits());
            assert_eq!(angle(c, i, Phase::TwoThirds).to_bits(), two.to_bits());
            let all = angles(c, i);
            assert_eq!(all.zero.to_bits(), zero.to_bits());
            assert_eq!(all.third.to_bits(), third.to_bits());
            assert_eq!(all.two_thirds.to_bits(), two.to_bits());
        }
    }
}

#[test]
fn channel_level_exact_values() {
    assert_eq!(channel_level(d(0.0)), 128);
    assert_eq!(channel_level(d(1.0)), 255);
    assert_eq!(channel_level(d(-1.0)), 1);
    assert_eq!(channel_level(d(0.5)), 191);
    assert_eq!(channel_level(d(-0.5)), 64);
    assert_eq!(channel_level(d(0.8660254037844387)), 237);
    assert_eq!(channel_level(d(-0.8660254037844387)), 18);
}

#[test]
fn channel_level_does_not_wrap() {
    assert_eq!(channel_level(d(2.0)), 255);
    assert_eq!(channel_level(d(1e300)), 255);
    assert_eq!(channel_level(d(f64::INFINITY)), 255);
    assert_eq!(channel_level(d(-2.0)), 0);
    assert_eq!(channel_level(d(-1e300)), 0);
    assert_eq!(channel_level(d(f64::NEG_INFINITY)), 0);
    assert_eq!(channel_level(d(f64::NAN)), 0);
}

#[test]
fn channel_level_agrees_with_hardware() {
    let mut s = -1.0f64;
    while s <= 1.0 {
        assert_eq!(channel_level(d(s)), (((s * 127.0) + 128.0).floor()) as u8, "{}", s);
        s += 0.000_37;
    }
}

#[test]
fn channel_levels_of_sines_stay_between_one_and_255() {
    for &c in &[1u32, 2, 3, 4, 5, 6, 12, 30, 360, 1000] {
        for i in 0..c {
            let a = angles(c, i);
            for s in [sine(a.zero), sine(a.third), sine(a.two_thirds)] {
                let l = channel_level(s);
                assert!(l >= 1, "count {} index {}", c, i);
            }
        }
    }
}

#[test]
fn palette_has_one_entry_per_depth() {
    for n in [0u32, 1, 2, 5, 30, 257] {
        assert_eq!(palette(n).len(), n as usize);
        assert_eq!(palette(n).colors.len(), n as usize);
    }
}

#[test]
fn empty_palette() {
    let p = build_palette(&Vec::new());
    assert_eq!(p.len(), 0);
    assert!(p.colors.is_empty());
    assert_eq!(p.color(0), None);
}

#[test]
fn palette_is_opaque() {
    for c in palette(30).colors {
        assert_eq!(c.alpha, 255);
    }
}

#[test]
fn palette_channels_follow_their_phases() {
    let third = 1.0 * std::f64::consts::PI * 2.0 / 3.0;
    let two_thirds = 2.0 * std::f64::consts::PI * 2.0 / 3.0;
    for &n in &[1u32, 5, 30, 100] {
        let p = palette(n);
        for i in 0..n {
            let c = p.colors[i as usize];
            assert_eq!(c.blue, hardware_level(n, i, 0.0));
            assert_eq!(c.red, hardware_level(n, i, third));
            assert_eq!(c.green, hardware_level(n, i, two_thirds));
            assert_eq!(c.alpha, 255);
        }
    }
}

#[test]
fn first_palette_entry() {
    // sines at 0, a third and two thirds of a turn: 0, 0.866.., -0.866..
    let p = palette(5);
    assert_eq!(p.colors[0], Color { red: 237, green: 18, blue: 128, alpha: 255 });
    assert_eq!(p.color(0), Some(Color { red: 237, green: 18, blue: 128, alpha: 255 }));
    assert_eq!(p.color(5), None);
}

#[test]
fn palette_is_the_same_every_time() {
    assert_eq!(palette(30).colors, palette(30).colors);
}

#[test]
fn entry_color_assigns_channels() {
    let c = entry_color(PhaseTriple { zero: d(1.0), third: d(0.0), two_thirds: d(-1.0) });
    assert_eq!(c, Color { red: 128, green: 1, blue: 255, alpha: 255 });
}

#[test]
fn interior_is_opaque_black() {
    assert_eq!(interior(), Color { red: 0, green: 0, blue: 0, alpha: 255 });
}

#[test]
fn palette_angles_has_the_angles_of_every_index() {
    assert!(palette_angles(0).is_empty());
    for &c in &[1u32, 2, 5, 30, 257] {
        let all = palette_angles(c);
        assert_eq!(all.len(), c as usize);
        for i in 0..c {
            assert_eq!(all[i as usize], angles(c, i));
            let zero = std::f64::consts::PI / (c as f64) * 2.0 * (i as f64) + 0.0 * std::f64::consts::PI * 2.0 / 3.0;
            let third = std::f64::consts::PI / (c as f64) * 2.0 * (i as f64) + 1.0 * std::f64::consts::PI * 2.0 / 3.0;
            let two = std::f64::consts::PI / (c as f64) * 2.0 * (i as f64) + 2.0 * std::f64::consts::PI * 2.0 / 3.0;
            assert_eq!(all[i as usize].zero.to_bits(), zero.to_bits());
            assert_eq!(all[i as usize].third.to_bits(), third.to_bits());
            assert_eq!(all[i as usize].two_thirds.to_bits(), two.to_bits());
        }
    }
}
