//! Fluid drum: the instrument's options and the geometry of the membrane grid.
use vstd::prelude::*;
use crate::rng::random_below;

verus! {

/// Width of the simulated membrane, in cells.
pub const GRID_W: usize = 200;

/// Height of the simulated membrane, in cells.
pub const GRID_H: usize = 160;

/// Most drum hits that sound at once; further taps are ignored.
pub const MAX_HITS: usize = 20;

/// Synthesised drum voice.
#[derive(Clone, Copy, PartialEq, Eq, Structural, Debug)]
pub enum DrumType {
    /// Deep thud with pitch drop.
    Kick,
    /// Crispy snap: sine + noise burst.
    Snare,
    /// Mid resonant thump.
    Tom,
    /// Inharmonic shimmer, long decay.
    Cymbal,
    /// Pure ring, very long decay.
    Bell,
    /// Sub-bass rumble.
    Bass,
}

impl DrumType {
    /// Name shown in the drum picker.
    pub fn label(self) -> (r: &'static str)
        ensures
            r@ == (match self {
                DrumType::Kick => "Kick"@,
                DrumType::Snare => "Snare"@,
                DrumType::Tom => "Tom"@,
                DrumType::Cymbal => "Cymbal"@,
                DrumType::Bell => "Bell"@,
                DrumType::Bass => "Bass"@,
            }),
    {
        match self {
            DrumType::Kick => "Kick",
            DrumType::Snare => "Snare",
            DrumType::Tom => "Tom",
            DrumType::Cymbal => "Cymbal",
            DrumType::Bell => "Bell",
            DrumType::Bass => "Bass",
        }
    }

    /// Every drum, in picker order.
    pub const ALL: [DrumType; 6] = [
        DrumType::Kick,
        DrumType::Snare,
        DrumType::Tom,
        DrumType::Cymbal,
        DrumType::Bell,
        DrumType::Bass,
    ];
}

/// Physics behaviour of the simulated membrane.
#[derive(Debug, Clone, Copy, PartialEq, Eq, Structural)]
pub enum WaveMode {
    /// Standard 2D wave equation, fixed (reflective) boundaries.
    Standard,
    /// Absorbing boundary: waves die smoothly at the edges.
    Ripple,
    /// 9-point stencil: diagonal neighbours get half weight.
    Interference,
    /// A small rotational bias after each step, sweeping energy round.
    Vortex,
}

impl WaveMode {
    /// Name shown in the wave picker.
    pub fn label(&self) -> (r: &'static str)
        ensures
            r@ == (match *self {
                WaveMode::Standard => "Membrane"@,
                WaveMode::Ripple => "Ripple"@,
                WaveMode::Interference => "Interference"@,
                WaveMode::Vortex => "Vortex"@,
            }),
    {
        match self {
            WaveMode::Standard => "Membrane",
            WaveMode::Ripple => "Ripple",
            WaveMode::Interference => "Interference",
            WaveMode::Vortex => "Vortex",
        }
    }

    /// Every wave mode, in picker order.
    pub const ALL: [WaveMode; 4] = [
        WaveMode::Standard,
        WaveMode::Ripple,
        WaveMode::Interference,
        WaveMode::Vortex,
    ];
}

/// Colour map from displacement to pixel colour.
#[derive(Debug, Clone, Copy, PartialEq, Eq, Structural)]
pub enum ColorMode {
    Ocean,
    Fire,
    Plasma,
    Mono,
    /// Black, deep red, orange, white.
    Lava,
    /// Dark, green, teal, white on crests; dark to purple in troughs.
    Aurora,
    /// Hue from displacement, always bright.
    Neon,
    /// Iridescent rainbow: hue from displacement, value from its size.
    Oil,
}

impl ColorMode {
    /// Name shown in the colour picker.
    pub fn label(&self) -> (r: &'static str)
        ensures
            r@ == (match *self {
                ColorMode::Ocean => "Ocean"@,
                ColorMode::Fire => "Fire"@,
                ColorMode::Plasma => "Plasma"@,
                ColorMode::Mono => "Mono"@,
                ColorMode::Lava => "Lava"@,
                ColorMode::Aurora => "Aurora"@,
                ColorMode::Neon => "Neon"@,
                ColorMode::Oil => "Oil"@,
            }),
    {
        match self {
            ColorMode::Ocean => "Ocean",
            ColorMode::Fire => "Fire",
            ColorMode::Plasma => "Plasma",
            ColorMode::Mono => "Mono",
            ColorMode::Lava => "Lava",
            ColorMode::Aurora => "Aurora",
            ColorMode::Neon => "Neon",
            ColorMode::Oil => "Oil",
        }
    }

    /// Every colour mode, in picker order.
    pub const ALL: [ColorMode; 8] = [
        ColorMode::Ocean,
        ColorMode::Fire,
        ColorMode::Plasma,
        ColorMode::Mono,
        ColorMode::Lava,
        ColorMode::Aurora,
        ColorMode::Neon,
        ColorMode::Oil,
    ];
}

/// Cell (x, y) lies inside the membrane, off its fixed border.
pub open spec fn is_interior(x: int, y: int) -> bool {
    0 < x < GRID_W - 1 && 0 < y < GRID_H - 1
}

/// Row-major index of the cell (x, y) of the membrane.
pub open spec fn cell_index(x: int, y: int) -> int {
    y * GRID_W + x
}

/// Index of the cell (x, y) when a strike there moves the membrane: only
/// interior cells do.
pub fn interior_index(x: usize, y: usize) -> (r: Option<usize>)
    ensures
        r == (if is_interior(x as int, y as int) {
            Some(cell_index(x as int, y as int) as usize)
        } else {
            None::<usize>
        }),
{
    if x > 0 && x < GRID_W - 1 && y > 0 && y < GRID_H - 1 {
        Some(y * GRID_W + x)
    } else {
        None
    }
}

/// `e` is (index, squared distance from (x, y)) of an interior cell within
/// distance `radius` of the cell (x, y).
pub open spec fn disc_entry(x: int, y: int, radius: int, e: (usize, u64)) -> bool {
    let cx = e.0 as int % GRID_W as int;
    let cy = e.0 as int / GRID_W as int;
    &&& is_interior(cx, cy)
    &&& (cx - x) * (cx - x) + (cy - y) * (cy - y) <= radius * radius
    &&& e.1 == (cx - x) * (cx - x) + (cy - y) * (cy - y)
}

proof fn lemma_square_within(a: int, r: int)
    requires
        -r <= a <= r,
        r <= 0x3fff_ffff,
    ensures
        0 <= a * a <= r * r,
        r * r <= 0x3fff_ffff * 0x3fff_ffff,
{
    assert(0 <= a * a <= r * r) by (nonlinear_arith)
        requires
            -r <= a <= r,
    ;
    assert(r * r <= 0x3fff_ffff * 0x3fff_ffff) by (nonlinear_arith)
        requires
            0 <= r <= 0x3fff_ffff,
    ;
}

proof fn lemma_square_beyond(a: int, r: int)
    requires
        0 <= r,
        a > r || a < -r,
    ensures
        a * a > r * r,
{
    assert(a * a > r * r) by (nonlinear_arith)
        requires
            0 <= r,
            a > r || a < -r,
    ;
}

proof fn lemma_nonneg_square(a: int)
    ensures
        a * a >= 0,
{
    assert(a * a >= 0) by (nonlinear_arith);
}

/// Cells a strike of radius `radius` at the cell (x, y) moves: every interior
/// cell within that distance, once, with its squared distance from (x, y),
/// in increasing index order.
pub fn disc_cells(x: usize, y: usize, radius: usize) -> (r: Vec<(usize, u64)>)
    requires
        x <= 0x3fff_ffff,
        y <= 0x3fff_ffff,
        radius <= 0x3fff_ffff,
    ensures
        forall|k: int| 0 <= k < r.len() ==> disc_entry(x as int, y as int, radius as int, #[trigger] r@[k]),
        forall|k1: int, k2: int| 0 <= k1 < k2 < r.len() ==> (#[trigger] r@[k1]).0 < (#[trigger] r@[k2]).0,
        forall|cx: int, cy: int|
            is_interior(cx, cy) && (cx - x) * (cx - x) + (cy - y) * (cy - y) <= radius * radius
                ==> exists|k: int| 0 <= k < r.len() && (#[trigger] r@[k]).0 == cell_index(cx, cy),
{
    let ghost xi = x as int;
    let ghost yi = y as int;
    let ghost ri = radius as int;
    let r = radius as i64;
    let xs = x as i64;
    let ys = y as i64;
    let mut out: Vec<(usize, u64)> = Vec::new();
    let mut dy: i64 = -r;
    proof {
        assert forall|cx: int, cy: int|
            is_interior(cx, cy) && (cx - xi) * (cx - xi) + (cy - yi) * (cy - yi) <= ri * ri implies cy >= yi + dy by {
            lemma_nonneg_square(cx - xi);
            if cy < yi + dy {
                lemma_square_beyond(cy - yi, ri);
            }
        }
    }
    while dy <= r
        invariant
            -r <= dy <= r + 1,
            r == ri,
            xs == xi,
            ys == yi,
            0 <= xi <= 0x3fff_ffff,
            0 <= yi <= 0x3fff_ffff,
            0 <= ri <= 0x3fff_ffff,
            forall|k: int| 0 <= k < out.len() ==> disc_entry(xi, yi, ri, #[trigger] out@[k]),
            forall|k1: int, k2: int| 0 <= k1 < k2 < out.len() ==> (#[trigger] out@[k1]).0 < (#[trigger] out@[k2]).0,
            forall|k: int| 0 <= k < out.len() ==> (#[trigger] out@[k]).0 < cell_index(0, yi + dy),
            forall|cx: int, cy: int|
                is_interior(cx, cy) && (cx - xi) * (cx - xi) + (cy - yi) * (cy - yi) <= ri * ri && cy < yi + dy
                    ==> exists|k: int| 0 <= k < out.len() && (#[trigger] out@[k]).0 == cell_index(cx, cy),
        decreases r + 1 - dy,
    {
        let mut dx: i64 = -r;
        proof {
            assert forall|cx: int, cy: int|
                is_interior(cx, cy) && (cx - xi) * (cx - xi) + (cy - yi) * (cy - yi) <= ri * ri && cy == yi + dy
                    implies cx >= xi + dx by {
                lemma_nonneg_square(cy - yi);
                if cx < xi + dx {
                    lemma_square_beyond(cx - xi, ri);
                }
            }
        }
        while dx <= r
            invariant
                -r <= dy <= r,
                -r <= dx <= r + 1,
                r == ri,
                xs == xi,
                ys == yi,
                0 <= xi <= 0x3fff_ffff,
                0 <= yi <= 0x3fff_ffff,
                0 <= ri <= 0x3fff_ffff,
                forall|k: int| 0 <= k < out.len() ==> disc_entry(xi, yi, ri, #[trigger] out@[k]),
                forall|k1: int, k2: int| 0 <= k1 < k2 < out.len() ==> (#[trigger] out@[k1]).0 < (#[trigger] out@[k2]).0,
                forall|k: int|
                    0 <= k < out.len() ==> (#[trigger] out@[k]).0 < cell_index(
                        if xi + dx > 0 { xi + dx } else { 0 },
                        yi + dy,
                    ) && out@[k].0 < cell_index(0, yi + dy + 1),
                forall|cx: int, cy: int|
                    is_interior(cx, cy) && (cx - xi) * (cx - xi) + (cy - yi) * (cy - yi) <= ri * ri && (cy < yi
                        + dy || (cy == yi + dy && cx < xi + dx)) ==> exists|k: int|
                        0 <= k < out.len() && (#[trigger] out@[k]).0 == cell_index(cx, cy),
            decreases r + 1 - dx,
        {
            proof {
                lemma_square_within(dx as int, ri);
                lemma_square_within(dy as int, ri);
            }
            let d2 = dx * dx + dy * dy;
            let nx = xs + dx;
            let ny = ys + dy;
            let ghost o0 = out@;
            if d2 <= r * r && nx > 0 && nx < GRID_W as i64 - 1 && ny > 0 && ny < GRID_H as i64 - 1 {
                let idx = (ny as usize) * GRID_W + nx as usize;
                proof {
                    assert(idx as int % GRID_W as int == nx && idx as int / GRID_W as int == ny);
                }
                out.push((idx, d2 as u64));
                proof {
                    assert(out@[o0.len() as int] == (idx, d2 as u64));
                    assert forall|k: int| 0 <= k < out.len() implies disc_entry(xi, yi, ri, #[trigger] out@[k]) by {
                        if k < o0.len() {
                            assert(out@[k] == o0[k]);
                        }
                    }
                    assert forall|k1: int, k2: int| 0 <= k1 < k2 < out.len() implies (#[trigger] out@[k1]).0
                        < (#[trigger] out@[k2]).0 by {
                        assert(out@[k1] == o0[k1]);
                        if k2 < o0.len() {
                            assert(out@[k2] == o0[k2]);
                        }
                    }
                    assert forall|k: int| 0 <= k < out.len() implies (#[trigger] out@[k]).0 < cell_index(
                        if xi + dx + 1 > 0 { xi + dx + 1 } else { 0 },
                        yi + dy,
                    ) && out@[k].0 < cell_index(0, yi + dy + 1) by {
                        if k < o0.len() {
                            assert(out@[k] == o0[k]);
                        }
                    }
                    assert forall|cx: int, cy: int|
                        is_interior(cx, cy) && (cx - xi) * (cx - xi) + (cy - yi) * (cy - yi) <= ri * ri && (cy
                            < yi + dy || (cy == yi + dy && cx < xi + dx + 1)) implies exists|k: int|
                            0 <= k < out.len() && (#[trigger] out@[k]).0 == cell_index(cx, cy) by {
                        if cy == yi + dy && cx == xi + dx {
                            assert(out@[o0.len() as int].0 == cell_index(cx, cy));
                        } else {
                            let k = choose|k: int| 0 <= k < o0.len() && (#[trigger] o0[k]).0 == cell_index(cx, cy);
                            assert(out@[k] == o0[k]);
                        }
                    }
                }
            } else {
                proof {
                    assert forall|cx: int, cy: int|
                        is_interior(cx, cy) && (cx - xi) * (cx - xi) + (cy - yi) * (cy - yi) <= ri * ri && (cy
                            < yi + dy || (cy == yi + dy && cx < xi + dx + 1)) implies exists|k: int|
                            0 <= k < out.len() && (#[trigger] out@[k]).0 == cell_index(cx, cy) by {
                        if cy == yi + dy && cx == xi + dx {
                            assert(false);
                        }
                    }
                }
            }
            dx = dx + 1;
        }
        proof {
            assert forall|cx: int, cy: int|
                is_interior(cx, cy) && (cx - xi) * (cx - xi) + (cy - yi) * (cy - yi) <= ri * ri && cy == yi + dy
                    implies cx < xi + dx by {
                lemma_nonneg_square(cy - yi);
                if cx >= xi + dx {
                    lemma_square_beyond(cx - xi, ri);
                }
            }
        }
        dy = dy + 1;
    }
    proof {
        assert forall|cx: int, cy: int|
            is_interior(cx, cy) && (cx - xi) * (cx - xi) + (cy - yi) * (cy - yi) <= ri * ri implies cy < yi + dy by {
            lemma_nonneg_square(cx - xi);
            if cy >= yi + dy {
                lemma_square_beyond(cy - yi, ri);
            }
        }
    }
    out
}

/// Membrane cell shown at pixel (px, py) of an `out_w` by `out_h` image of
/// the membrane: the image is the grid scaled to that size.
pub open spec fn spec_pixel_cell(px: int, py: int, out_w: int, out_h: int) -> int {
    let gx = px * GRID_W / out_w;
    let gy = py * GRID_H / out_h;
    let gx = if gx < GRID_W - 1 { gx } else { GRID_W - 1 };
    let gy = if gy < GRID_H - 1 { gy } else { GRID_H - 1 };
    cell_index(gx, gy)
}

/// Index of the membrane cell shown at pixel (px, py) of an `out_w` by
/// `out_h` image.
pub fn pixel_cell(px: usize, py: usize, out_w: usize, out_h: usize) -> (i: usize)
    requires
        px < out_w,
        py < out_h,
        out_w * GRID_W <= usize::MAX,
        out_h * GRID_H <= usize::MAX,
    ensures
        i == spec_pixel_cell(px as int, py as int, out_w as int, out_h as int),
        i < GRID_W * GRID_H,
        (i % GRID_W) * out_w <= px * GRID_W < (i % GRID_W + 1) * out_w,
        (i / GRID_W) * out_h <= py * GRID_H < (i / GRID_W + 1) * out_h,
{
    proof {
        law_pixel_cell_scales_grid(px as int, py as int, out_w as int, out_h as int);
    }
    assert(px * GRID_W <= out_w * GRID_W && py * GRID_H <= out_h * GRID_H) by (nonlinear_arith)
        requires
            px < out_w,
            py < out_h,
    ;
    let gx = px * GRID_W / out_w;
    let gy = py * GRID_H / out_h;
    let gx = if gx < GRID_W - 1 {
        gx
    } else {
        GRID_W - 1
    };
    let gy = if gy < GRID_H - 1 {
        gy
    } else {
        GRID_H - 1
    };
    gy * GRID_W + gx
}

/// The column `c` that pixel column `p` of an image `out` pixels wide shows
/// when `cells` columns are scaled to that width: `c * out <= p * cells <
/// (c + 1) * out`.
proof fn lemma_scaled_column(p: int, out: int, cells: int)
    requires
        0 <= p < out,
        cells > 0,
    ensures
        0 <= p * cells / out < cells,
        (p * cells / out) * out <= p * cells < (p * cells / out + 1) * out,
{
    let q = p * cells / out;
    let m = p * cells % out;
    assert(0 <= p * cells) by (nonlinear_arith)
        requires
            0 <= p,
            cells > 0,
    ;
    vstd::arithmetic::div_mod::lemma_fundamental_div_mod(p * cells, out);
    vstd::arithmetic::div_mod::lemma_mod_pos_bound(p * cells, out);
    assert(p * cells == out * q + m);
    assert(q * out <= p * cells < (q + 1) * out) by (nonlinear_arith)
        requires
            p * cells == out * q + m,
            0 <= m < out,
    ;
    assert(0 <= q < cells) by (nonlinear_arith)
        requires
            q * out <= p * cells < (q + 1) * out,
            0 <= p < out,
            cells > 0,
    ;
}

/// Pixel (px, py) of an `out_w` by `out_h` image of the membrane shows the
/// cell in column `c` and row `r` for which `c * out_w <= px * GRID_W <
/// (c + 1) * out_w` and `r * out_h <= py * GRID_H < (r + 1) * out_h`: the
/// image is the whole grid stretched proportionally to the image's size,
/// whatever the ratio of image to grid.
pub proof fn law_pixel_cell_scales_grid(px: int, py: int, out_w: int, out_h: int)
    requires
        0 <= px < out_w,
        0 <= py < out_h,
    ensures
        ({
            let i = spec_pixel_cell(px, py, out_w, out_h);
            let c = i % (GRID_W as int);
            let r = i / (GRID_W as int);
            &&& 0 <= i < GRID_W * GRID_H
            &&& c * out_w <= px * GRID_W < (c + 1) * out_w
            &&& r * out_h <= py * GRID_H < (r + 1) * out_h
        }),
{
    lemma_scaled_column(px, out_w, GRID_W as int);
    lemma_scaled_column(py, out_h, GRID_H as int);
    let gx = px * GRID_W / out_w;
    let gy = py * GRID_H / out_h;
    let i = spec_pixel_cell(px, py, out_w, out_h);
    assert(i == gy * GRID_W + gx);
    vstd::arithmetic::div_mod::lemma_fundamental_div_mod_converse(i, GRID_W as int, gy, gx);
}

/// Number of gentle strikes that start the membrane moving.
pub const INITIAL_STRIKES: usize = 4;

/// Cells of the gentle strikes that start the membrane moving: random, at
/// least 20 cells in from every edge.
pub fn initial_strike_points() -> (pts: Vec<(usize, usize)>)
    ensures
        pts.len() == INITIAL_STRIKES,
        forall|k: int|
            0 <= k < pts.len() ==> 20 <= (#[trigger] pts@[k]).0 < GRID_W - 20 && 20 <= pts@[k].1 < GRID_H
                - 20,
{
    let mut pts: Vec<(usize, usize)> = Vec::new();
    let mut i: usize = 0;
    while i < INITIAL_STRIKES
        invariant
            i <= INITIAL_STRIKES,
            pts.len() == i,
            forall|k: int|
                0 <= k < pts.len() ==> 20 <= (#[trigger] pts@[k]).0 < GRID_W - 20 && 20 <= pts@[k].1
                    < GRID_H - 20,
        decreases INITIAL_STRIKES - i,
    {
        let x = random_below(20, GRID_W - 20);
        let y = random_below(20, GRID_H - 20);
        pts.push((x, y));
        i = i + 1;
    }
    pts
}

/// Nearest whole step (-1, 0 or 1) of the component `num / len` of a
/// direction, where `len2 = len * len` is its squared length: a unit step
/// where the component is at least half the length, in its sign.
pub open spec fn unit_step(num: int, len2: int) -> int {
    if num != 0 && 4 * num * num >= len2 {
        if num > 0 {
            1
        } else {
            -1
        }
    } else {
        0
    }
}

/// `v` brought into `lo..=hi`.
pub open spec fn clamp(v: int, lo: int, hi: int) -> int {
    if v < lo {
        lo
    } else if v > hi {
        hi
    } else {
        v
    }
}

/// Cell whose displacement the interior cell (x, y) borrows from in vortex
/// mode: its clockwise neighbour about the centre of the membrane, one
/// whole step along the tangent (-ry, rx) from (x, y) = centre + (rx, ry),
/// kept off the border.
pub open spec fn spec_vortex_source(x: int, y: int) -> int {
    let rx = x - GRID_W / 2;
    let ry = y - GRID_H / 2;
    let len2 = rx * rx + ry * ry;
    let nx = clamp(x + unit_step(-ry, len2), 1, GRID_W - 2);
    let ny = clamp(y + unit_step(rx, len2), 1, GRID_H - 2);
    cell_index(nx, ny)
}

proof fn lemma_small_square(a: int)
    requires
        -100 <= a <= 100,
    ensures
        0 <= a * a <= 10000,
        4 * a * a == 4 * (a * a),
{
    assert(0 <= a * a <= 10000) by (nonlinear_arith)
        requires
            -100 <= a <= 100,
    ;
    assert(4 * a * a == 4 * (a * a)) by (nonlinear_arith);
}

/// Index of the cell the interior cell (x, y) borrows from in vortex mode.
pub fn vortex_source(x: usize, y: usize) -> (i: usize)
    requires
        is_interior(x as int, y as int),
    ensures
        i == spec_vortex_source(x as int, y as int),
        i < GRID_W * GRID_H,
{
    let rx = x as i64 - (GRID_W / 2) as i64;
    let ry = y as i64 - (GRID_H / 2) as i64;
    assert(-100 <= rx <= 100 && -100 <= ry <= 100);
    proof {
        lemma_small_square(rx as int);
        lemma_small_square(ry as int);
    }
    let len2 = rx * rx + ry * ry;
    let tx: i64 = if ry != 0 && 4 * ry * ry >= len2 {
        if -ry > 0 {
            1
        } else {
            -1
        }
    } else {
        0
    };
    let ty: i64 = if rx != 0 && 4 * rx * rx >= len2 {
        if rx > 0 {
            1
        } else {
            -1
        }
    } else {
        0
    };
    assert(4 * (-ry) * (-ry) == 4 * ry * ry) by (nonlinear_arith);
    let nx = x as i64 + tx;
    let ny = y as i64 + ty;
    let nx = if nx < 1 {
        1
    } else if nx > GRID_W as i64 - 2 {
        GRID_W as i64 - 2
    } else {
        nx
    };
    let ny = if ny < 1 {
        1
    } else if ny > GRID_H as i64 - 2 {
        GRID_H as i64 - 2
    } else {
        ny
    };
    (ny as usize) * GRID_W + nx as usize
}

/// What lifting a finger does.
#[derive(Clone, Copy, PartialEq, Eq, Structural, Debug)]
pub enum TouchEnd {
    /// The finger tapped: strike the drum where it was.
    Hit,
    /// The last dragging finger left: silence the drag tone.
    StopDrag,
    /// Another finger still drags: keep the drag tone.
    KeepDrag,
}

/// What lifting a finger does, given whether it was dragging and whether a
/// finger still on the membrane drags.
pub fn touch_end(was_drag: bool, other_dragging: bool) -> (a: TouchEnd)
    ensures
        a == (if !was_drag {
            TouchEnd::Hit
        } else if other_dragging {
            TouchEnd::KeepDrag
        } else {
            TouchEnd::StopDrag
        }),
{
    if !was_drag {
        TouchEnd::Hit
    } else if other_dragging {
        TouchEnd::KeepDrag
    } else {
        TouchEnd::StopDrag
    }
}

} // verus!
