//! The image assembler: every pixel of the grid, from its plane point, its
//! escape depth and the palette.

use vstd::prelude::*;
use crate::grid::{rgba_bytes, PixelGrid};
use crate::palette::{
    build_palette, interior, interior_color, shade, shades, Color, Palette, PhaseTriple,
};
use crate::plane::{coordinate, escape_depth, escape_time, map_coordinate, PlanePoint};
use crate::region::{InvalidRegion, Region};

verus! {

/// The plane point that the pixel in column `x` of row `y` samples.
pub open spec fn pixel_point(region: Region, x: nat, y: nat) -> PlanePoint {
    PlanePoint {
        re: coordinate(x, region.x_min, region.step),
        im: coordinate(y, region.y_min, region.step),
    }
}

/// The colour for an escape depth: the palette entry of a point that
/// escaped, the interior colour of one that reached the cap.
pub open spec fn depth_color(depth: nat, cap: nat, palette: Seq<Color>) -> Color {
    if depth < cap {
        palette[depth as int]
    } else {
        interior_color()
    }
}

/// The colour of the pixel in column `x` of row `y`.
pub open spec fn pixel_color(region: Region, cap: nat, palette: Seq<Color>, x: nat, y: nat) -> Color {
    depth_color(escape_depth(pixel_point(region, x, y), cap), cap, palette)
}

/// The whole image as a map over the flat index range: pixel `i` lies in
/// column `i % columns` of row `i / columns`, and depends on nothing else.
pub open spec fn rendering(region: Region, cap: nat, palette: Seq<Color>) -> Seq<Color> {
    Seq::new(
        region.columns() * region.rows(),
        |i: int|
            pixel_color(
                region,
                cap,
                palette,
                (i % region.columns() as int) as nat,
                (i / region.columns() as int) as nat,
            ),
    )
}

/// Picks the colour for an escape depth.
pub fn pick_color(depth: u32, max_iterations: u32, palette: &Palette) -> (c: Color)
    requires
        palette@.len() == max_iterations,
    ensures
        c == depth_color(depth as nat, max_iterations as nat, palette@),
{
    if depth < max_iterations {
        palette.colors[depth as usize]
    } else {
        interior()
    }
}

/// Computes one pixel: maps both indices into the plane, evaluates the
/// escape time there and picks the colour.
pub fn render_pixel(region: &Region, max_iterations: u32, palette: &Palette, x: u32, y: u32) -> (c:
    Color)
    requires
        palette@.len() == max_iterations,
    ensures
        c == pixel_color(*region, max_iterations as nat, palette@, x as nat, y as nat),
{
    let point: PlanePoint = PlanePoint {
        re: map_coordinate(x, region.x_min, region.step),
        im: map_coordinate(y, region.y_min, region.step),
    };
    pick_color(escape_time(point, max_iterations), max_iterations, palette)
}

/// Renders the region: checks it, builds the palette from the sines of its
/// entries, then computes every pixel of the grid. Nothing is computed for
/// a region that is at fault.
pub fn render(region: &Region, max_iterations: u32, sines: &Vec<PhaseTriple>) -> (r: Result<
    PixelGrid,
    InvalidRegion,
>)
    requires
        sines@.len() == max_iterations,
    ensures
        match r {
            Ok(grid) => {
                &&& region.fault().is_none()
                &&& grid.columns() == region.columns()
                &&& grid.rows() == region.rows()
                &&& grid@ == rendering(*region, max_iterations as nat, shades(sines@))
            },
            Err(e) => region.fault() == Some(e),
        },
{
    let (w, h) = match region.dimensions() {
        Ok(d) => d,
        Err(e) => {
            return Err(e);
        },
    };
    let built: Palette = build_palette(sines);
    let palette: &Palette = &built;
    assert(w * h <= 0xffff_ffff * 0xffff_ffff) by (nonlinear_arith)
        requires
            w <= 0xffff_ffff,
            h <= 0xffff_ffff,
    ;
    let total: u64 = (w as u64) * (h as u64);
    let mut pixels: Vec<Color> = Vec::new();
    let mut i: u64 = 0;
    while i < total
        invariant
            i <= total,
            total == w * h,
            w > 0,
            w == region.columns(),
            h == region.rows(),
            palette@.len() == max_iterations,
            pixels@.len() == i,
            forall|j: int|
                0 <= j < i ==> pixels@[j] == #[trigger] rendering(
                    *region,
                    max_iterations as nat,
                    palette@,
                )[j],
        decreases total - i,
    {
        let x: u32 = (i % (w as u64)) as u32;
        let y: u32 = (i / (w as u64)) as u32;
        proof {
            vstd::arithmetic::div_mod::lemma_fundamental_div_mod(i as int, w as int);
            assert(i / (w as u64) < h) by (nonlinear_arith)
                requires
                    i < w * h,
                    w > 0,
                    i == w * (i / (w as u64)) + i % (w as u64),
                    0 <= i % (w as u64),
            ;
        }
        pixels.push(render_pixel(region, max_iterations, palette, x, y));
        i = i + 1;
    }
    assert(pixels@ =~= rendering(*region, max_iterations as nat, palette@));
    Ok(PixelGrid::assemble(w, h, pixels))
}

/// Rendering is a function of its inputs: two grids rendered from the same
/// region, iteration cap and palette hold the same pixels, and so the same
/// bytes.
pub proof fn lemma_render_deterministic(
    first: PixelGrid,
    second: PixelGrid,
    region: Region,
    cap: nat,
    palette: Seq<Color>,
)
    requires
        first@ == rendering(region, cap, palette),
        second@ == rendering(region, cap, palette),
    ensures
        first@ == second@,
        rgba_bytes(first@) == rgba_bytes(second@),
{
}

/// Every pixel of a rendering is the colour of its own column and row,
/// whatever the order in which pixels are computed.
pub proof fn lemma_rendering_pixel(region: Region, cap: nat, palette: Seq<Color>, x: nat, y: nat)
    requires
        x < region.columns(),
        y < region.rows(),
    ensures
        rendering(region, cap, palette).len() == region.columns() * region.rows(),
        y * region.columns() + x < region.columns() * region.rows(),
        rendering(region, cap, palette)[(y * region.columns() + x) as int] == pixel_color(
            region,
            cap,
            palette,
            x,
            y,
        ),
{
    let w = region.columns() as int;
    let h = region.rows() as int;
    let i = y * w + x;
    assert(0 <= y * w && i < w * h) by (nonlinear_arith)
        requires
            0 <= x < w,
            0 <= y < h,
            i == y * w + x,
    ;
    vstd::arithmetic::div_mod::lemma_fundamental_div_mod_converse(i, w, y as int, x as int);
}

/// Every pixel of a rendering is opaque.
pub proof fn lemma_rendering_is_opaque(
    region: Region,
    cap: nat,
    sines: Seq<PhaseTriple>,
    x: nat,
    y: nat,
)
    requires
        sines.len() == cap,
    ensures
        pixel_color(region, cap, shades(sines), x, y).alpha == 255,
{
    let depth = escape_depth(pixel_point(region, x, y), cap);
    if depth < cap {
        assert(shades(sines)[depth as int] == shade(sines[depth as int]));
    }
}

/// With an iteration cap of zero every pixel is the interior colour.
pub proof fn lemma_zero_cap_is_interior(region: Region, palette: Seq<Color>, x: nat, y: nat)
    ensures
        pixel_color(region, 0, palette, x, y) == interior_color(),
{
}

} // verus!
