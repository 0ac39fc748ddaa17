use mandelbrot::double::Double;
use mandelbrot::plane::{escape_time, map_coordinate, PlanePoint};
use num::complex::Complex64;

fn d(x: f64) -> Double {
    Double::from_bits(x.to_bits())
}

fn point(re: f64, im: f64) -> PlanePoint {
    PlanePoint { re: d(re), im: d(im) }
}

/// The evaluator written with hardware arithmetic and a complex-number type.
fn hardware_escape_time(x: f64, y: f64, imax: u32) -> u32 {
    let a = Complex64::new(x, y);
    let mut i: u32 = 0;
    let mut z = a;
    while z.norm_sqr() < 4.0 && i < imax {
        i += 1;
        z = z * z + a;
    }
    i
}

#[test]
fn origin_never_escapes() {
    for n in [0u32, 1, 2, 5, 30, 1000] {
        assert_eq!(escape_time(point(0.0, 0.0), n), n);
    }
}

#[test]
fn negative_zero_origin_never_escapes() {
    assert_eq!(escape_time(point(-0.0, -0.0), 30), 30);
    assert_eq!(escape_time(point(0.0, -0.0), 30), 30);
}

#[test]
fn point_outside_radius_performs_no_iteration() {
    assert_eq!(escape_time(point(2.0, 0.0), 1), 0);
    assert_eq!(escape_time(point(-2.0, 0.0), 30), 0);
    assert_eq!(escape_time(point(-2.0, -1.0), 5), 0);
    assert_eq!(escape_time(point(3.0, 4.0), 100), 0);
    assert_eq!(escape_time(point(0.0, 2.0), 7), 0);
}

#[test]
fn zero_cap_gives_zero() {
    assert_eq!(escape_time(point(0.0, 0.0), 0), 0);
    assert_eq!(escape_time(point(0.3, 0.5), 0), 0);
    assert_eq!(escape_time(point(5.0, 5.0), 0), 0);
}

#[test]
fn known_depths() {
    // c = -1 - i: z1 = -1 + i, z2 = -1 - 3i, which is outside.
    assert_eq!(escape_time(point(-1.0, -1.0), 5), 2);
    // c = -1 and c = -i cycle for ever.
    assert_eq!(escape_time(point(-1.0, 0.0), 5), 5);
    assert_eq!(escape_time(point(0.0, -1.0), 5), 5);
    // c = 1: 1, 2 (|z|^2 = 4 stops the loop).
    assert_eq!(escape_time(point(1.0, 0.0), 30), 1);
    // c = 0.5: 0.5, 0.75, 1.0625, 1.62890625, 3.1533...
    assert_eq!(escape_time(point(0.5, 0.0), 30), 4);
}

#[test]
fn depth_never_exceeds_cap() {
    for cap in [0u32, 1, 3, 17] {
        let mut y = -1.5;
        while y < 1.5 {
            let mut x = -2.5;
            while x < 1.5 {
                assert!(escape_time(point(x, y), cap) <= cap);
                x += 0.37;
            }
            y += 0.41;
        }
    }
}

#[test]
fn escape_time_agrees_with_hardware_evaluator() {
    let mut y = -1.3;
    while y < 1.3 {
        let mut x = -2.1;
        while x < 1.1 {
            for cap in [1u32, 7, 30, 64] {
                assert_eq!(
                    escape_time(point(x, y), cap),
                    hardware_escape_time(x, y, cap),
                    "c = {} + {}i, cap {}",
                    x,
                    y,
                    cap
                );
            }
            x += 0.047;
        }
        y += 0.053;
    }
}

#[test]
fn escape_time_agrees_on_extreme_points() {
    for &(x, y) in &[
        (1e308, 1e308),
        (-1e308, 3.0),
        (1e-320, -1e-320),
        (5e-324, 5e-324),
        (f64::MAX, 0.0),
        (1.9999999999999998, 0.0),
        (0.0, 1.9999999999999998),
        (-0.75, 1e-9),
        (0.25, 0.0),
        (0.2500000000000001, 0.0),
        (f64::INFINITY, 0.0),
        (f64::NAN, 0.0),
        (0.0, f64::NAN),
    ] {
        assert_eq!(escape_time(point(x, y), 200), hardware_escape_time(x, y, 200), "{} {}", x, y);
    }
}

#[test]
fn coordinate_of_index_zero_is_axis_minimum() {
    for &min in &[-2.0, -1.2, 0.0, 1e-300, 3.5, -7.25e100, 5e-324] {
        for &step in &[0.003, 1.0, 1e-9, 1e300, -4.0, 5e-324] {
            let x = map_coordinate(0, d(min), d(step));
            assert_eq!(f64::from_bits(x.to_bits()), min);
        }
    }
    // a negative zero minimum keeps its value, though the pattern is +0
    let x = map_coordinate(0, d(-0.0), d(0.003));
    assert_eq!(f64::from_bits(x.to_bits()), 0.0);
}

#[test]
fn coordinate_is_min_plus_step_times_index() {
    assert_eq!(map_coordinate(3, d(-2.0), d(1.0)).to_bits(), 1.0f64.to_bits());
    assert_eq!(map_coordinate(2, d(-1.0), d(0.5)).to_bits(), 0.0f64.to_bits());
    assert_eq!(map_coordinate(10, d(-2.0), d(0.003)).to_bits(), (-2.0f64 + 0.003 * 10.0).to_bits());
    for &min in &[-2.0, -1.2, 0.1, 1e-300, 1e300] {
        for &step in &[0.003, 1.0, 1e-9, 0.1, 1e299] {
            for &k in &[0u32, 1, 2, 3, 7, 999, 1000, 65535, 4_000_000_000, u32::MAX] {
                let ours = map_coordinate(k, d(min), d(step));
                let theirs = min + (step * (k as f64));
                assert_eq!(ours.to_bits(), theirs.to_bits(), "{} {} {}", min, step, k);
            }
        }
    }
}
