use mandelbrot::double::Double;
use mandelbrot::grid::PixelGrid;
use mandelbrot::palette::{angles, build_palette, Color, Palette, PhaseTriple};
use mandelbrot::plane::{escape_time, map_coordinate, PlanePoint};
use mandelbrot::region::{InvalidRegion, Region};
use mandelbrot::render::{pick_color, render, render_pixel};
use num::complex::Complex64;

const BLACK: Color = Color { red: 0, green: 0, blue: 0, alpha: 255 };

fn d(x: f64) -> Double {
    Double::from_bits(x.to_bits())
}

fn sine(a: Double) -> Double {
    d(f64::from_bits(a.to_bits()).sin())
}

fn sines(count: u32) -> Vec<PhaseTriple> {
    let mut sines = Vec::new();
    for i in 0..count {
        let a = angles(count, i);
        sines.push(PhaseTriple { zero: sine(a.zero), third: sine(a.third), two_thirds: sine(a.two_thirds) });
    }
    sines
}

fn palette(count: u32) -> Palette {
    build_palette(&sines(count))
}

fn region(x0: f64, x1: f64, y0: f64, y1: f64, step: f64) -> Region {
    Region { x_min: d(x0), x_max: d(x1), y_min: d(y0), y_max: d(y1), step: d(step) }
}

fn hardware_level(c: u32, i: u32, phase: f64) -> u8 {
    let s = (std::f64::consts::PI / (c as f64) * 2.0 * (i as f64) + phase).sin();
    (((s * 127.0) + 128.0).floor()) as u8
}

fn hardware_depth(x: f64, y: f64, imax: u32) -> u32 {
    let a = Complex64::new(x, y);
    let mut i: u32 = 0;
    let mut z = a;
    while z.norm_sqr() < 4.0 && i < imax {
        i += 1;
        z = z * z + a;
    }
    i
}

/// The whole pipeline in hardware arithmetic, as flat RGBA bytes.
fn hardware_render(x0: f64, x1: f64, y0: f64, y1: f64, step: f64, imax: u32) -> (u32, u32, Vec<u8>) {
    let w = (((x1 - x0) / step).floor()) as u32;
    let h = (((y1 - y0) / step).floor()) as u32;
    let third = 1.0 * std::f64::consts::PI * 2.0 / 3.0;
    let two_thirds = 2.0 * std::f64::consts::PI * 2.0 / 3.0;
    let mut bytes = Vec::new();
    for y in 0..h {
        for x in 0..w {
            let depth = hardware_depth(x0 + (step * (x as f64)), y0 + (step * (y as f64)), imax);
            if depth < imax {
                bytes.push(hardware_level(imax, depth, third));
                bytes.push(hardware_level(imax, depth, two_thirds));
                bytes.push(hardware_level(imax, depth, 0.0));
                bytes.push(255);
            } else {
                bytes.extend_from_slice(&[0, 0, 0, 255]);
            }
        }
    }
    (w, h, bytes)
}

#[test]
fn three_by_two_scenario() {
    let r = region(-2.0, 1.0, -1.0, 1.0, 1.0);
    let p = palette(5);
    let grid = render(&r, 5, &sines(5)).unwrap();
    assert_eq!(grid.width(), 3);
    assert_eq!(grid.height(), 2);
    // the pixel that samples (-2, -1) escapes at once and is coloured
    let corner = PlanePoint { re: map_coordinate(0, r.x_min, r.step), im: map_coordinate(0, r.y_min, r.step) };
    assert_eq!(corner.re.to_bits(), (-2.0f64).to_bits());
    assert_eq!(corner.im.to_bits(), (-1.0f64).to_bits());
    assert!(escape_time(corner, 5) < 5);
    assert_eq!(grid.pixel(0, 0), Some(p.colors[0]));
    // depths of the six samples, row by row
    let depths = [[0u32, 2, 5], [0, 5, 5]];
    for y in 0..2u32 {
        for x in 0..3u32 {
            let c = PlanePoint { re: map_coordinate(x, r.x_min, r.step), im: map_coordinate(y, r.y_min, r.step) };
            let depth = escape_time(c, 5);
            assert_eq!(depth, depths[y as usize][x as usize]);
            let want = if depth < 5 { p.colors[depth as usize] } else { BLACK };
            assert_eq!(grid.pixel(x, y), Some(want));
        }
    }
    // every sample on the left edge escapes below the cap
    for y in 0..2u32 {
        let c = PlanePoint { re: map_coordinate(0, r.x_min, r.step), im: map_coordinate(y, r.y_min, r.step) };
        assert!(escape_time(c, 5) < 5);
    }
}

#[test]
fn render_agrees_with_hardware_pipeline() {
    for &(x0, x1, y0, y1, step, cap) in &[
        (-2.0, 1.0, -1.2, 1.2, 0.1, 30u32),
        (-2.0, 1.0, -1.0, 1.0, 1.0, 5),
        (-0.8, -0.7, 0.05, 0.15, 0.003, 64),
        (-2.0, 1.0, -1.2, 1.2, 0.07, 1),
        (0.25, 0.5, -0.1, 0.1, 0.01, 12),
    ] {
        let r = region(x0, x1, y0, y1, step);
        let grid = render(&r, cap, &sines(cap)).unwrap();
        let (w, h, bytes) = hardware_render(x0, x1, y0, y1, step, cap);
        assert_eq!(grid.width(), w);
        assert_eq!(grid.height(), h);
        assert_eq!(grid.to_rgba_bytes(), bytes);
    }
}

#[test]
fn render_of_default_view_at_a_coarser_step() {
    let r = region(-2.0, 1.0, -1.2, 1.2, 0.01);
    let grid = render(&r, 30, &sines(30)).unwrap();
    let (w, h, bytes) = hardware_render(-2.0, 1.0, -1.2, 1.2, 0.01, 30);
    assert_eq!((grid.width(), grid.height()), (w, h));
    assert_eq!((w, h), (300, 240));
    assert_eq!(grid.to_rgba_bytes(), bytes);
}

#[test]
fn render_is_deterministic() {
    let r = region(-2.0, 1.0, -1.2, 1.2, 0.05);
    let first = render(&r, 30, &sines(30)).unwrap();
    let second = render(&r, 30, &sines(30)).unwrap();
    assert_eq!(first.to_rgba_bytes(), second.to_rgba_bytes());
    assert_eq!(first.width(), second.width());
    assert_eq!(first.height(), second.height());
}

#[test]
fn pixels_do_not_depend_on_order() {
    let r = region(-2.0, 1.0, -1.2, 1.2, 0.2);
    let p = palette(20);
    let grid = render(&r, 20, &sines(20)).unwrap();
    let (w, h) = (grid.width(), grid.height());
    for y in (0..h).rev() {
        for x in (0..w).rev() {
            assert_eq!(grid.pixel(x, y), Some(render_pixel(&r, 20, &p, x, y)));
        }
    }
}

#[test]
fn zero_cap_renders_all_black() {
    let r = region(-2.0, 1.0, -1.0, 1.0, 0.5);
    let grid = render(&r, 0, &sines(0)).unwrap();
    assert_eq!(grid.width(), 6);
    assert_eq!(grid.height(), 4);
    for y in 0..4 {
        for x in 0..6 {
            assert_eq!(grid.pixel(x, y), Some(BLACK));
        }
    }
    assert_eq!(grid.to_rgba_bytes(), [0u8, 0, 0, 255].repeat(24));
}

#[test]
fn invalid_region_renders_nothing() {
    let p = sines(5);
    assert_eq!(render(&region(-2.0, 1.0, -1.0, 1.0, 0.0), 5, &p).err(), Some(InvalidRegion::Step));
    assert_eq!(render(&region(-2.0, 1.0, -1.0, 1.0, -1.0), 5, &p).err(), Some(InvalidRegion::Step));
    assert_eq!(render(&region(1.0, 1.0, -1.0, 1.0, 0.1), 5, &p).err(), Some(InvalidRegion::Horizontal));
    assert_eq!(render(&region(1.0, -2.0, -1.0, 1.0, 0.1), 5, &p).err(), Some(InvalidRegion::Horizontal));
    assert_eq!(render(&region(-2.0, 1.0, 1.0, 1.0, 0.1), 5, &p).err(), Some(InvalidRegion::Vertical));
    assert_eq!(render(&region(-2.0, 1.0, 1.0, -1.0, 0.1), 5, &p).err(), Some(InvalidRegion::Vertical));
    assert_eq!(render(&region(0.0, 0.5, -1.0, 1.0, 1.0), 5, &p).err(), Some(InvalidRegion::NoColumns));
    assert_eq!(render(&region(-2.0, 1.0, 0.0, 0.5, 1.0), 5, &p).err(), Some(InvalidRegion::NoRows));
}

#[test]
fn pick_color_selects_palette_or_interior() {
    let p = palette(5);
    for depth in 0..5u32 {
        assert_eq!(pick_color(depth, 5, &p), p.colors[depth as usize]);
    }
    assert_eq!(pick_color(5, 5, &p), BLACK);
    assert_eq!(pick_color(0, 0, &palette(0)), BLACK);
}

#[test]
fn bytes_are_row_major_rgba() {
    let a = Color { red: 1, green: 2, blue: 3, alpha: 4 };
    let b = Color { red: 5, green: 6, blue: 7, alpha: 8 };
    let c = Color { red: 9, green: 10, blue: 11, alpha: 12 };
    let e = Color { red: 13, green: 14, blue: 15, alpha: 16 };
    let f = Color { red: 17, green: 18, blue: 19, alpha: 20 };
    let g = Color { red: 21, green: 22, blue: 23, alpha: 24 };
    let grid = PixelGrid::from_pixels(3, 2, vec![a, b, c, e, f, g]).unwrap();
    assert_eq!(grid.width(), 3);
    assert_eq!(grid.height(), 2);
    assert_eq!(grid.pixel(0, 0), Some(a));
    assert_eq!(grid.pixel(2, 0), Some(c));
    assert_eq!(grid.pixel(0, 1), Some(e));
    assert_eq!(grid.pixel(2, 1), Some(g));
    assert_eq!(grid.pixel(3, 0), None);
    assert_eq!(grid.pixel(0, 2), None);
    let bytes: Vec<u8> = (1..=24).collect();
    assert_eq!(grid.to_rgba_bytes(), bytes);
}

#[test]
fn grid_needs_width_times_height_pixels() {
    let a = Color { red: 1, green: 2, blue: 3, alpha: 4 };
    assert!(PixelGrid::from_pixels(2, 2, vec![a, a, a]).is_none());
    assert!(PixelGrid::from_pixels(2, 2, vec![a, a, a, a, a]).is_none());
    assert!(PixelGrid::from_pixels(2, 2, vec![a, a, a, a]).is_some());
    assert!(PixelGrid::from_pixels(0, 7, Vec::new()).is_some());
    assert_eq!(PixelGrid::from_pixels(0, 7, Vec::new()).unwrap().to_rgba_bytes(), Vec::<u8>::new());
}
