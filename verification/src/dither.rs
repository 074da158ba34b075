//! The lossy pass: each pixel, in scan order, replaced by the closest color
//! among some of its neighbours, its error spread Floyd–Steinberg style.
use vstd::prelude::*;
use crate::color::Rgba;
use crate::image::{get_pixel, put_pixel, Image};

verus! {

/// Which neighbours the palette of a pixel takes in.
#[derive(Clone, Copy, Debug, PartialEq, Eq, Structural)]
pub struct Radius {
    pub base_radius: bool,
    pub diagonal_pixels: bool,
    pub extra_radius: bool,
    pub extra_extra_radius: bool,
}

#[verifier::opaque]
pub open spec fn opt(c: bool, p: (int, int)) -> Seq<(int, int)> {
    if c {
        seq![p]
    } else {
        Seq::<(int, int)>::empty()
    }
}

/// The neighbours of `(x, y)` whose colors make the palette, in the order
/// they are considered (the first closest one wins).
pub open spec fn neighbours(x: int, y: int, w: int, h: int, r: Radius) -> Seq<(int, int)> {
    let (b, d, e, ee) = (r.base_radius, r.diagonal_pixels, r.extra_radius, r.extra_extra_radius);
    opt(x > 0 && y > 0 && d, (x - 1, y - 1))
        + opt(x > 1 && y > 1 && e && d, (x - 2, y - 2))
        + opt(x > 0 && b, (x - 1, y))
        + opt(x > 1 && e, (x - 2, y))
        + opt(x > 2 && ee, (x - 3, y))
        + opt(x < w - 1 && y < h - 1 && d, (x + 1, y + 1))
        + opt(x < w - 2 && y < h - 2 && e && d, (x + 2, y + 2))
        + opt(y > 0 && b, (x, y - 1))
        + opt(y > 1 && e, (x, y - 2))
        + opt(y > 2 && ee, (x, y - 3))
        + opt(x < w - 1 && b, (x + 1, y))
        + opt(x < w - 2 && e, (x + 2, y))
        + opt(x < w - 3 && ee, (x + 3, y))
        + opt(y < h - 1 && b, (x, y + 1))
        + opt(y < h - 2 && e, (x, y + 2))
        + opt(y < h - 3 && ee, (x, y + 3))
        + opt(x < w - 1 && y > 0 && d, (x + 1, y - 1))
        + opt(x < w - 2 && y > 1 && e && d, (x + 2, y - 2))
        + opt(x > 0 && y < h - 1 && d, (x - 1, y + 1))
        + opt(x > 1 && y < h - 2 && e && d, (x - 2, y + 2))
}

/// The squared distance of two colors, all four channels.
pub open spec fn distance(a: Rgba, b: Rgba) -> int {
    let dr = a.r - b.r;
    let dg = a.g - b.g;
    let db = a.b - b.b;
    let da = a.a - b.a;
    dr * dr + dg * dg + db * db + da * da
}

/// The first color of `palette` closest to `p` (`min_by_key`), or `p`
/// where the palette is empty.
pub open spec fn closest(p: Rgba, palette: Seq<Rgba>) -> Rgba
    decreases palette.len(),
{
    if palette.len() == 0 {
        p
    } else if palette.len() == 1 {
        palette[0]
    } else {
        let best = closest(p, palette.drop_last());
        if distance(p, palette.last()) < distance(p, best) {
            palette.last()
        } else {
            best
        }
    }
}

pub open spec fn palette(g: Seq<Seq<Rgba>>, ns: Seq<(int, int)>) -> Seq<Rgba> {
    ns.map_values(|q: (int, int)| g[q.1][q.0])
}

/// The color the pixel at `(x, y)` is replaced with.
pub open spec fn closest_palette_color(g: Seq<Seq<Rgba>>, x: int, y: int, w: int, h: int, r: Radius) -> Rgba {
    closest(g[y][x], palette(g, neighbours(x, y, w, h, r)))
}

/// One channel of the spread error: `(error * (mul / 16)) as u8`.
pub open spec fn error_channel(mul: u8, e: i16) -> u8 {
    (e * (mul / 16) as i16) as u8
}

pub open spec fn quant_error_mul(mul: u8, e: (i16, i16, i16, i16)) -> Rgba {
    Rgba {
        r: error_channel(mul, e.0),
        g: error_channel(mul, e.1),
        b: error_channel(mul, e.2),
        a: error_channel(mul, e.3),
    }
}

pub open spec fn add_colors_spec(a: Rgba, b: Rgba) -> Rgba {
    Rgba { r: (a.r + b.r) as u8, g: (a.g + b.g) as u8, b: (a.b + b.b) as u8, a: (a.a + b.a) as u8 }
}

pub open spec fn set_px(g: Seq<Seq<Rgba>>, x: int, y: int, c: Rgba) -> Seq<Seq<Rgba>> {
    g.update(y, g[y].update(x, c))
}

/// The error spread to the pixel at `(x, y)` with weight `mul`.
pub open spec fn spread(g: Seq<Seq<Rgba>>, x: int, y: int, mul: u8, e: (i16, i16, i16, i16)) -> Seq<Seq<Rgba>> {
    set_px(g, x, y, add_colors_spec(g[y][x], quant_error_mul(mul, e)))
}

/// The grid after the pixel at `(x, y)` is treated.
pub open spec fn dither_step(g: Seq<Seq<Rgba>>, x: int, y: int, w: int, h: int, r: Radius) -> Seq<Seq<Rgba>> {
    let old = g[y][x];
    let new = closest_palette_color(g, x, y, w, h, r);
    let g1 = set_px(g, x, y, new);
    let e = (
        (old.r - new.r) as i16,
        (old.g - new.g) as i16,
        (old.b - new.b) as i16,
        (old.a - new.a) as i16,
    );
    let g2 = if x < w - 1 { spread(g1, x + 1, y, 7, e) } else { g1 };
    let g3 = if x > 0 && y < h - 1 { spread(g2, x - 1, y + 1, 3, e) } else { g2 };
    let g4 = if y < h - 1 { spread(g3, x, y + 1, 5, e) } else { g3 };
    if x < w - 1 && y < h - 1 { spread(g4, x + 1, y + 1, 1, e) } else { g4 }
}

/// The grid after the first `x` pixels of row `y` are treated.
pub open spec fn dither_row(g: Seq<Seq<Rgba>>, y: int, x: int, w: int, h: int, r: Radius) -> Seq<Seq<Rgba>>
    decreases x,
{
    if x <= 0 {
        g
    } else {
        dither_step(dither_row(g, y, x - 1, w, h, r), x - 1, y, w, h, r)
    }
}

/// The grid after the first `y` rows are treated.
pub open spec fn dither_rows(g: Seq<Seq<Rgba>>, y: int, w: int, h: int, r: Radius) -> Seq<Seq<Rgba>>
    decreases y,
{
    if y <= 0 {
        g
    } else {
        dither_row(dither_rows(g, y - 1, w, h, r), y - 1, w, w, h, r)
    }
}


/// A position inside a `w` by `h` grid.
pub open spec fn in_grid(p: (int, int), w: int, h: int) -> bool {
    0 <= p.0 < w && 0 <= p.1 < h
}

pub open spec fn all_in_grid(s: Seq<(int, int)>, w: int, h: int) -> bool {
    forall|i: int| 0 <= i < s.len() ==> in_grid(#[trigger] s[i], w, h)
}

proof fn lemma_opt_in(c: bool, p: (int, int), w: int, h: int)
    requires
        c ==> in_grid(p, w, h),
    ensures
        all_in_grid(opt(c, p), w, h),
{
    reveal(opt);
}

proof fn lemma_concat_in(a: Seq<(int, int)>, b: Seq<(int, int)>, w: int, h: int)
    requires
        all_in_grid(a, w, h),
        all_in_grid(b, w, h),
    ensures
        all_in_grid(a + b, w, h),
{
    assert forall|i: int| 0 <= i < (a + b).len() implies in_grid(#[trigger] (a + b)[i], w, h) by {
        if i < a.len() {
            assert((a + b)[i] == a[i]);
        } else {
            assert((a + b)[i] == b[i - a.len()]);
        }
    }
}

/// The neighbours of a pixel lie inside the grid.
pub proof fn lemma_neighbours_in_grid(x: int, y: int, w: int, h: int, r: Radius)
    requires
        0 <= x < w,
        0 <= y < h,
    ensures
        all_in_grid(neighbours(x, y, w, h, r), w, h),
{
    let (b, d, e, ee) = (r.base_radius, r.diagonal_pixels, r.extra_radius, r.extra_extra_radius);
    lemma_opt_in(x > 0 && y > 0 && d, (x - 1, y - 1), w, h);
    lemma_opt_in(x > 1 && y > 1 && e && d, (x - 2, y - 2), w, h);
    lemma_concat_in(opt(x > 0 && y > 0 && d, (x - 1, y - 1)), opt(x > 1 && y > 1 && e && d, (x - 2, y - 2)), w, h);
    lemma_opt_in(x > 0 && b, (x - 1, y), w, h);
    lemma_concat_in(opt(x > 0 && y > 0 && d, (x - 1, y - 1))
        + opt(x > 1 && y > 1 && e && d, (x - 2, y - 2)), opt(x > 0 && b, (x - 1, y)), w, h);
    lemma_opt_in(x > 1 && e, (x - 2, y), w, h);
    lemma_concat_in(opt(x > 0 && y > 0 && d, (x - 1, y - 1))
        + opt(x > 1 && y > 1 && e && d, (x - 2, y - 2))
        + opt(x > 0 && b, (x - 1, y)), opt(x > 1 && e, (x - 2, y)), w, h);
    lemma_opt_in(x > 2 && ee, (x - 3, y), w, h);
    lemma_concat_in(opt(x > 0 && y > 0 && d, (x - 1, y - 1))
        + opt(x > 1 && y > 1 && e && d, (x - 2, y - 2))
        + opt(x > 0 && b, (x - 1, y))
        + opt(x > 1 && e, (x - 2, y)), opt(x > 2 && ee, (x - 3, y)), w, h);
    lemma_opt_in(x < w - 1 && y < h - 1 && d, (x + 1, y + 1), w, h);
    lemma_concat_in(opt(x > 0 && y > 0 && d, (x - 1, y - 1))
        + opt(x > 1 && y > 1 && e && d, (x - 2, y - 2))
        + opt(x > 0 && b, (x - 1, y))
        + opt(x > 1 && e, (x - 2, y))
        + opt(x > 2 && ee, (x - 3, y)), opt(x < w - 1 && y < h - 1 && d, (x + 1, y + 1)), w, h);
    lemma_opt_in(x < w - 2 && y < h - 2 && e && d, (x + 2, y + 2), w, h);
    lemma_concat_in(opt(x > 0 && y > 0 && d, (x - 1, y - 1))
        + opt(x > 1 && y > 1 && e && d, (x - 2, y - 2))
        + opt(x > 0 && b, (x - 1, y))
        + opt(x > 1 && e, (x - 2, y))
        + opt(x > 2 && ee, (x - 3, y))
        + opt(x < w - 1 && y < h - 1 && d, (x + 1, y + 1)), opt(x < w - 2 && y < h - 2 && e && d, (x + 2, y + 2)), w, h);
    lemma_opt_in(y > 0 && b, (x, y - 1), w, h);
    lemma_concat_in(opt(x > 0 && y > 0 && d, (x - 1, y - 1))
        + opt(x > 1 && y > 1 && e && d, (x - 2, y - 2))
        + opt(x > 0 && b, (x - 1, y))
        + opt(x > 1 && e, (x - 2, y))
        + opt(x > 2 && ee, (x - 3, y))
        + opt(x < w - 1 && y < h - 1 && d, (x + 1, y + 1))
        + opt(x < w - 2 && y < h - 2 && e && d, (x + 2, y + 2)), opt(y > 0 && b, (x, y - 1)), w, h);
    lemma_opt_in(y > 1 && e, (x, y - 2), w, h);
    lemma_concat_in(opt(x > 0 && y > 0 && d, (x - 1, y - 1))
        + opt(x > 1 && y > 1 && e && d, (x - 2, y - 2))
        + opt(x > 0 && b, (x - 1, y))
        + opt(x > 1 && e, (x - 2, y))
        + opt(x > 2 && ee, (x - 3, y))
        + opt(x < w - 1 && y < h - 1 && d, (x + 1, y + 1))
        + opt(x < w - 2 && y < h - 2 && e && d, (x + 2, y + 2))
        + opt(y > 0 && b, (x, y - 1)), opt(y > 1 && e, (x, y - 2)), w, h);
    lemma_opt_in(y > 2 && ee, (x, y - 3), w, h);
    lemma_concat_in(opt(x > 0 && y > 0 && d, (x - 1, y - 1))
        + opt(x > 1 && y > 1 && e && d, (x - 2, y - 2))
        + opt(x > 0 && b, (x - 1, y))
        + opt(x > 1 && e, (x - 2, y))
        + opt(x > 2 && ee, (x - 3, y))
        + opt(x < w - 1 && y < h - 1 && d, (x + 1, y + 1))
        + opt(x < w - 2 && y < h - 2 && e && d, (x + 2, y + 2))
        + opt(y > 0 && b, (x, y - 1))
        + opt(y > 1 && e, (x, y - 2)), opt(y > 2 && ee, (x, y - 3)), w, h);
    lemma_opt_in(x < w - 1 && b, (x + 1, y), w, h);
    lemma_concat_in(opt(x > 0 && y > 0 && d, (x - 1, y - 1))
        + opt(x > 1 && y > 1 && e && d, (x - 2, y - 2))
        + opt(x > 0 && b, (x - 1, y))
        + opt(x > 1 && e, (x - 2, y))
        + opt(x > 2 && ee, (x - 3, y))
        + opt(x < w - 1 && y < h - 1 && d, (x + 1, y + 1))
        + opt(x < w - 2 && y < h - 2 && e && d, (x + 2, y + 2))
        + opt(y > 0 && b, (x, y - 1))
        + opt(y > 1 && e, (x, y - 2))
        + opt(y > 2 && ee, (x, y - 3)), opt(x < w - 1 && b, (x + 1, y)), w, h);
    lemma_opt_in(x < w - 2 && e, (x + 2, y), w, h);
    lemma_concat_in(opt(x > 0 && y > 0 && d, (x - 1, y - 1))
        + opt(x > 1 && y > 1 && e && d, (x - 2, y - 2))
        + opt(x > 0 && b, (x - 1, y))
        + opt(x > 1 && e, (x - 2, y))
        + opt(x > 2 && ee, (x - 3, y))
        + opt(x < w - 1 && y < h - 1 && d, (x + 1, y + 1))
        + opt(x < w - 2 && y < h - 2 && e && d, (x + 2, y + 2))
        + opt(y > 0 && b, (x, y - 1))
        + opt(y > 1 && e, (x, y - 2))
        + opt(y > 2 && ee, (x, y - 3))
        + opt(x < w - 1 && b, (x + 1, y)), opt(x < w - 2 && e, (x + 2, y)), w, h);
    lemma_opt_in(x < w - 3 && ee, (x + 3, y), w, h);
    lemma_concat_in(opt(x > 0 && y > 0 && d, (x - 1, y - 1))
        + opt(x > 1 && y > 1 && e && d, (x - 2, y - 2))
        + opt(x > 0 && b, (x - 1, y))
        + opt(x > 1 && e, (x - 2, y))
        + opt(x > 2 && ee, (x - 3, y))
        + opt(x < w - 1 && y < h - 1 && d, (x + 1, y + 1))
        + opt(x < w - 2 && y < h - 2 && e && d, (x + 2, y + 2))
        + opt(y > 0 && b, (x, y - 1))
        + opt(y > 1 && e, (x, y - 2))
        + opt(y > 2 && ee, (x, y - 3))
        + opt(x < w - 1 && b, (x + 1, y))
        + opt(x < w - 2 && e, (x + 2, y)), opt(x < w - 3 && ee, (x + 3, y)), w, h);
    lemma_opt_in(y < h - 1 && b, (x, y + 1), w, h);
    lemma_concat_in(opt(x > 0 && y > 0 && d, (x - 1, y - 1))
        + opt(x > 1 && y > 1 && e && d, (x - 2, y - 2))
        + opt(x > 0 && b, (x - 1, y))
        + opt(x > 1 && e, (x - 2, y))
        + opt(x > 2 && ee, (x - 3, y))
        + opt(x < w - 1 && y < h - 1 && d, (x + 1, y + 1))
        + opt(x < w - 2 && y < h - 2 && e && d, (x + 2, y + 2))
        + opt(y > 0 && b, (x, y - 1))
        + opt(y > 1 && e, (x, y - 2))
        + opt(y > 2 && ee, (x, y - 3))
        + opt(x < w - 1 && b, (x + 1, y))
        + opt(x < w - 2 && e, (x + 2, y))
        + opt(x < w - 3 && ee, (x + 3, y)), opt(y < h - 1 && b, (x, y + 1)), w, h);
    lemma_opt_in(y < h - 2 && e, (x, y + 2), w, h);
    lemma_concat_in(opt(x > 0 && y > 0 && d, (x - 1, y - 1))
        + opt(x > 1 && y > 1 && e && d, (x - 2, y - 2))
        + opt(x > 0 && b, (x - 1, y))
        + opt(x > 1 && e, (x - 2, y))
        + opt(x > 2 && ee, (x - 3, y))
        + opt(x < w - 1 && y < h - 1 && d, (x + 1, y + 1))
        + opt(x < w - 2 && y < h - 2 && e && d, (x + 2, y + 2))
        + opt(y > 0 && b, (x, y - 1))
        + opt(y > 1 && e, (x, y - 2))
        + opt(y > 2 && ee, (x, y - 3))
        + opt(x < w - 1 && b, (x + 1, y))
        + opt(x < w - 2 && e, (x + 2, y))
        + opt(x < w - 3 && ee, (x + 3, y))
        + opt(y < h - 1 && b, (x, y + 1)), opt(y < h - 2 && e, (x, y + 2)), w, h);
    lemma_opt_in(y < h - 3 && ee, (x, y + 3), w, h);
    lemma_concat_in(opt(x > 0 && y > 0 && d, (x - 1, y - 1))
        + opt(x > 1 && y > 1 && e && d, (x - 2, y - 2))
        + opt(x > 0 && b, (x - 1, y))
        + opt(x > 1 && e, (x - 2, y))
        + opt(x > 2 && ee, (x - 3, y))
        + opt(x < w - 1 && y < h - 1 && d, (x + 1, y + 1))
        + opt(x < w - 2 && y < h - 2 && e && d, (x + 2, y + 2))
        + opt(y > 0 && b, (x, y - 1))
        + opt(y > 1 && e, (x, y - 2))
        + opt(y > 2 && ee, (x, y - 3))
        + opt(x < w - 1 && b, (x + 1, y))
        + opt(x < w - 2 && e, (x + 2, y))
        + opt(x < w - 3 && ee, (x + 3, y))
        + opt(y < h - 1 && b, (x, y + 1))
        + opt(y < h - 2 && e, (x, y + 2)), opt(y < h - 3 && ee, (x, y + 3)), w, h);
    lemma_opt_in(x < w - 1 && y > 0 && d, (x + 1, y - 1), w, h);
    lemma_concat_in(opt(x > 0 && y > 0 && d, (x - 1, y - 1))
        + opt(x > 1 && y > 1 && e && d, (x - 2, y - 2))
        + opt(x > 0 && b, (x - 1, y))
        + opt(x > 1 && e, (x - 2, y))
        + opt(x > 2 && ee, (x - 3, y))
        + opt(x < w - 1 && y < h - 1 && d, (x + 1, y + 1))
        + opt(x < w - 2 && y < h - 2 && e && d, (x + 2, y + 2))
        + opt(y > 0 && b, (x, y - 1))
        + opt(y > 1 && e, (x, y - 2))
        + opt(y > 2 && ee, (x, y - 3))
        + opt(x < w - 1 && b, (x + 1, y))
        + opt(x < w - 2 && e, (x + 2, y))
        + opt(x < w - 3 && ee, (x + 3, y))
        + opt(y < h - 1 && b, (x, y + 1))
        + opt(y < h - 2 && e, (x, y + 2))
        + opt(y < h - 3 && ee, (x, y + 3)), opt(x < w - 1 && y > 0 && d, (x + 1, y - 1)), w, h);
    lemma_opt_in(x < w - 2 && y > 1 && e && d, (x + 2, y - 2), w, h);
    lemma_concat_in(opt(x > 0 && y > 0 && d, (x - 1, y - 1))
        + opt(x > 1 && y > 1 && e && d, (x - 2, y - 2))
        + opt(x > 0 && b, (x - 1, y))
        + opt(x > 1 && e, (x - 2, y))
        + opt(x > 2 && ee, (x - 3, y))
        + opt(x < w - 1 && y < h - 1 && d, (x + 1, y + 1))
        + opt(x < w - 2 && y < h - 2 && e && d, (x + 2, y + 2))
        + opt(y > 0 && b, (x, y - 1))
        + opt(y > 1 && e, (x, y - 2))
        + opt(y > 2 && ee, (x, y - 3))
        + opt(x < w - 1 && b, (x + 1, y))
        + opt(x < w - 2 && e, (x + 2, y))
        + opt(x < w - 3 && ee, (x + 3, y))
        + opt(y < h - 1 && b, (x, y + 1))
        + opt(y < h - 2 && e, (x, y + 2))
        + opt(y < h - 3 && ee, (x, y + 3))
        + opt(x < w - 1 && y > 0 && d, (x + 1, y - 1)), opt(x < w - 2 && y > 1 && e && d, (x + 2, y - 2)), w, h);
    lemma_opt_in(x > 0 && y < h - 1 && d, (x - 1, y + 1), w, h);
    lemma_concat_in(opt(x > 0 && y > 0 && d, (x - 1, y - 1))
        + opt(x > 1 && y > 1 && e && d, (x - 2, y - 2))
        + opt(x > 0 && b, (x - 1, y))
        + opt(x > 1 && e, (x - 2, y))
        + opt(x > 2 && ee, (x - 3, y))
        + opt(x < w - 1 && y < h - 1 && d, (x + 1, y + 1))
        + opt(x < w - 2 && y < h - 2 && e && d, (x + 2, y + 2))
        + opt(y > 0 && b, (x, y - 1))
        + opt(y > 1 && e, (x, y - 2))
        + opt(y > 2 && ee, (x, y - 3))
        + opt(x < w - 1 && b, (x + 1, y))
        + opt(x < w - 2 && e, (x + 2, y))
        + opt(x < w - 3 && ee, (x + 3, y))
        + opt(y < h - 1 && b, (x, y + 1))
        + opt(y < h - 2 && e, (x, y + 2))
        + opt(y < h - 3 && ee, (x, y + 3))
        + opt(x < w - 1 && y > 0 && d, (x + 1, y - 1))
        + opt(x < w - 2 && y > 1 && e && d, (x + 2, y - 2)), opt(x > 0 && y < h - 1 && d, (x - 1, y + 1)), w, h);
    lemma_opt_in(x > 1 && y < h - 2 && e && d, (x - 2, y + 2), w, h);
    lemma_concat_in(opt(x > 0 && y > 0 && d, (x - 1, y - 1))
        + opt(x > 1 && y > 1 && e && d, (x - 2, y - 2))
        + opt(x > 0 && b, (x - 1, y))
        + opt(x > 1 && e, (x - 2, y))
        + opt(x > 2 && ee, (x - 3, y))
        + opt(x < w - 1 && y < h - 1 && d, (x + 1, y + 1))
        + opt(x < w - 2 && y < h - 2 && e && d, (x + 2, y + 2))
        + opt(y > 0 && b, (x, y - 1))
        + opt(y > 1 && e, (x, y - 2))
        + opt(y > 2 && ee, (x, y - 3))
        + opt(x < w - 1 && b, (x + 1, y))
        + opt(x < w - 2 && e, (x + 2, y))
        + opt(x < w - 3 && ee, (x + 3, y))
        + opt(y < h - 1 && b, (x, y + 1))
        + opt(y < h - 2 && e, (x, y + 2))
        + opt(y < h - 3 && ee, (x, y + 3))
        + opt(x < w - 1 && y > 0 && d, (x + 1, y - 1))
        + opt(x < w - 2 && y > 1 && e && d, (x + 2, y - 2))
        + opt(x > 0 && y < h - 1 && d, (x - 1, y + 1)), opt(x > 1 && y < h - 2 && e && d, (x - 2, y + 2)), w, h);
}

/// A grid of `h` rows of `w` pixels.
pub open spec fn grid_dims(g: Seq<Seq<Rgba>>, w: int, h: int) -> bool {
    &&& g.len() == h
    &&& forall|y: int| 0 <= y < g.len() ==> (#[trigger] g[y]).len() == w
}

proof fn lemma_set_px_dims(g: Seq<Seq<Rgba>>, x: int, y: int, c: Rgba, w: int, h: int)
    requires
        grid_dims(g, w, h),
        0 <= x < w,
        0 <= y < h,
    ensures
        grid_dims(set_px(g, x, y, c), w, h),
        forall|yy: int, xx: int|
            0 <= yy < h && 0 <= xx < w ==> #[trigger] set_px(g, x, y, c)[yy][xx] == if yy == y && xx == x {
                c
            } else {
                g[yy][xx]
            },
{
    let s = set_px(g, x, y, c);
    assert forall|yy: int| 0 <= yy < s.len() implies (#[trigger] s[yy]).len() == w by {
        assert(g[yy].len() == w);
    }
    assert forall|yy: int, xx: int| 0 <= yy < h && 0 <= xx < w implies #[trigger] s[yy][xx] == if yy == y && xx == x {
        c
    } else {
        g[yy][xx]
    } by {
        assert(g[yy].len() == w);
    }
}

/// Spreading an error with a weight below 16 adds nothing.
proof fn lemma_spread_zero(g: Seq<Seq<Rgba>>, x: int, y: int, mul: u8, e: (i16, i16, i16, i16), w: int, h: int)
    requires
        grid_dims(g, w, h),
        0 <= x < w,
        0 <= y < h,
        mul < 16,
    ensures
        spread(g, x, y, mul, e) == g,
{
    assert(mul / 16 == 0);
    assert((mul / 16) as i16 == 0);
    assert forall|v: i16| #[trigger] error_channel(mul, v) == 0 by {
        assert(v * ((mul / 16) as i16) == 0);
        assert(0int as u8 == 0) by (bit_vector);
    }
    assert(quant_error_mul(mul, e) == (Rgba { r: 0, g: 0, b: 0, a: 0 }));
    let p = g[y][x];
    assert(add_colors_spec(p, quant_error_mul(mul, e)) == p);
    assert(g[y].len() == w);
    assert(g[y].update(x, p) =~= g[y]);
    assert(g.update(y, g[y]) =~= g);
}

/// Treating a pixel replaces it by the closest color among its current
/// neighbours and changes nothing else: the error spread to the pixels
/// after it is zero, its weights 7, 3, 5 and 1 being below 16.
pub proof fn law_dither_step_closest(g: Seq<Seq<Rgba>>, x: int, y: int, w: int, h: int, r: Radius)
    requires
        grid_dims(g, w, h),
        0 <= x < w,
        0 <= y < h,
    ensures
        dither_step(g, x, y, w, h, r) == set_px(g, x, y, closest_palette_color(g, x, y, w, h, r)),
{
    let old = g[y][x];
    let new = closest_palette_color(g, x, y, w, h, r);
    let g1 = set_px(g, x, y, new);
    lemma_set_px_dims(g, x, y, new, w, h);
    let e = (
        (old.r - new.r) as i16,
        (old.g - new.g) as i16,
        (old.b - new.b) as i16,
        (old.a - new.a) as i16,
    );
    if x < w - 1 {
        lemma_spread_zero(g1, x + 1, y, 7, e, w, h);
    }
    if x > 0 && y < h - 1 {
        lemma_spread_zero(g1, x - 1, y + 1, 3, e, w, h);
    }
    if y < h - 1 {
        lemma_spread_zero(g1, x, y + 1, 5, e, w, h);
    }
    if x < w - 1 && y < h - 1 {
        lemma_spread_zero(g1, x + 1, y + 1, 1, e, w, h);
    }
}

/// The closest color is the pixel's own or one of the palette's.
proof fn lemma_closest_from(p: Rgba, pal: Seq<Rgba>)
    ensures
        closest(p, pal) == p || exists|i: int| 0 <= i < pal.len() && pal[i] == closest(p, pal),
    decreases pal.len(),
{
    if pal.len() > 1 {
        lemma_closest_from(p, pal.drop_last());
        let best = closest(p, pal.drop_last());
        if best != p && closest(p, pal) == best {
            let i = choose|i: int| 0 <= i < pal.drop_last().len() && pal.drop_last()[i] == best;
            assert(pal[i] == best);
        }
        if closest(p, pal) == pal.last() {
            assert(pal[pal.len() - 1] == closest(p, pal));
        }
    } else if pal.len() == 1 {
        assert(pal[0] == closest(p, pal));
    }
}

/// `c` is the color of some pixel of `g`.
pub open spec fn grid_has(g: Seq<Seq<Rgba>>, c: Rgba, w: int, h: int) -> bool {
    exists|q: (int, int)| in_grid(q, w, h) && #[trigger] g[q.1][q.0] == c
}

/// Every pixel of `g` has a color of `g0`.
pub open spec fn colors_from(g: Seq<Seq<Rgba>>, g0: Seq<Seq<Rgba>>, w: int, h: int) -> bool {
    forall|y: int, x: int| 0 <= y < h && 0 <= x < w ==> grid_has(g0, #[trigger] g[y][x], w, h)
}

proof fn lemma_step_colors(g: Seq<Seq<Rgba>>, g0: Seq<Seq<Rgba>>, x: int, y: int, w: int, h: int, r: Radius)
    requires
        grid_dims(g, w, h),
        colors_from(g, g0, w, h),
        0 <= x < w,
        0 <= y < h,
    ensures
        grid_dims(dither_step(g, x, y, w, h, r), w, h),
        colors_from(dither_step(g, x, y, w, h, r), g0, w, h),
{
    law_dither_step_closest(g, x, y, w, h, r);
    let ns = neighbours(x, y, w, h, r);
    lemma_neighbours_in_grid(x, y, w, h, r);
    let pal = palette(g, ns);
    let c = closest(g[y][x], pal);
    lemma_closest_from(g[y][x], pal);
    assert(grid_has(g0, c, w, h)) by {
        if c == g[y][x] {
            assert(grid_has(g0, g[y][x], w, h));
        } else {
            let i = choose|i: int| 0 <= i < pal.len() && pal[i] == c;
            assert(in_grid(ns[i], w, h));
            assert(pal[i] == g[ns[i].1][ns[i].0]);
            assert(grid_has(g0, g[ns[i].1][ns[i].0], w, h));
        }
    }
    lemma_set_px_dims(g, x, y, c, w, h);
    let s = set_px(g, x, y, c);
    assert forall|yy: int, xx: int| 0 <= yy < h && 0 <= xx < w implies grid_has(g0, #[trigger] s[yy][xx], w, h) by {
        if !(yy == y && xx == x) {
            assert(grid_has(g0, g[yy][xx], w, h));
        }
    }
}

proof fn lemma_row_colors(g: Seq<Seq<Rgba>>, g0: Seq<Seq<Rgba>>, y: int, x: int, w: int, h: int, r: Radius)
    requires
        grid_dims(g, w, h),
        colors_from(g, g0, w, h),
        0 <= y < h,
        0 <= x <= w,
    ensures
        grid_dims(dither_row(g, y, x, w, h, r), w, h),
        colors_from(dither_row(g, y, x, w, h, r), g0, w, h),
    decreases x,
{
    if x > 0 {
        lemma_row_colors(g, g0, y, x - 1, w, h, r);
        lemma_step_colors(dither_row(g, y, x - 1, w, h, r), g0, x - 1, y, w, h, r);
    }
}

proof fn lemma_rows_colors(g: Seq<Seq<Rgba>>, y: int, w: int, h: int, r: Radius)
    requires
        grid_dims(g, w, h),
        0 <= y <= h,
        w >= 0,
    ensures
        grid_dims(dither_rows(g, y, w, h, r), w, h),
        colors_from(dither_rows(g, y, w, h, r), g, w, h),
    decreases y,
{
    if y > 0 {
        lemma_rows_colors(g, y - 1, w, h, r);
        lemma_row_colors(dither_rows(g, y - 1, w, h, r), g, y - 1, w, w, h, r);
    } else {
        assert forall|yy: int, xx: int| 0 <= yy < h && 0 <= xx < w implies grid_has(g, #[trigger] g[yy][xx], w, h) by {
            assert(in_grid((xx, yy), w, h));
            assert(g[(xx, yy).1][(xx, yy).0] == g[yy][xx]);
        }
    }
}

/// Dithering brings no new color: every pixel of the dithered image has a
/// color that some pixel of the image had.
pub proof fn law_dither_no_new_colors(g: Seq<Seq<Rgba>>, w: int, h: int, r: Radius)
    requires
        grid_dims(g, w, h),
        w >= 0,
    ensures
        grid_dims(dither_rows(g, h, w, h, r), w, h),
        colors_from(dither_rows(g, h, w, h, r), g, w, h),
{
    lemma_rows_colors(g, h, w, h, r);
}

/// With no neighbour selected, a pixel keeps its color.
proof fn lemma_step_off(g: Seq<Seq<Rgba>>, x: int, y: int, w: int, h: int)
    requires
        grid_dims(g, w, h),
        0 <= x < w,
        0 <= y < h,
    ensures
        dither_step(g, x, y, w, h, Radius { base_radius: false, diagonal_pixels: false, extra_radius: false, extra_extra_radius: false }) == g,
{
    let r = Radius { base_radius: false, diagonal_pixels: false, extra_radius: false, extra_extra_radius: false };
    law_dither_step_closest(g, x, y, w, h, r);
    reveal(opt);
    assert(neighbours(x, y, w, h, r) =~= Seq::<(int, int)>::empty());
    assert(palette(g, neighbours(x, y, w, h, r)) =~= Seq::<Rgba>::empty());
    assert(g[y].len() == w);
    assert(g[y].update(x, g[y][x]) =~= g[y]);
    assert(g.update(y, g[y]) =~= g);
}

proof fn lemma_row_off(g: Seq<Seq<Rgba>>, y: int, x: int, w: int, h: int)
    requires
        grid_dims(g, w, h),
        0 <= y < h,
        0 <= x <= w,
    ensures
        dither_row(g, y, x, w, h, Radius { base_radius: false, diagonal_pixels: false, extra_radius: false, extra_extra_radius: false }) == g,
    decreases x,
{
    if x > 0 {
        lemma_row_off(g, y, x - 1, w, h);
        lemma_step_off(g, x - 1, y, w, h);
    }
}

/// With no neighbour selected, dithering leaves the image as it is.
pub proof fn law_dither_flags_off(g: Seq<Seq<Rgba>>, y: int, w: int, h: int)
    requires
        grid_dims(g, w, h),
        0 <= y <= h,
    ensures
        dither_rows(g, y, w, h, Radius { base_radius: false, diagonal_pixels: false, extra_radius: false, extra_extra_radius: false }) == g,
    decreases y,
{
    if y > 0 {
        law_dither_flags_off(g, y - 1, w, h);
        assert(g[0].len() == w);
        lemma_row_off(g, y - 1, w, w, h);
    }
}

pub open spec fn as_int_pairs(v: Seq<(u32, u32)>) -> Seq<(int, int)> {
    v.map_values(|q: (u32, u32)| (q.0 as int, q.1 as int))
}

fn push_if(v: &mut Vec<(u32, u32)>, c: bool, p: (u32, u32), w: u32, h: u32, Ghost(q): Ghost<(int, int)>)
    requires
        c ==> p.0 < w && p.1 < h,
        c ==> q == (p.0 as int, p.1 as int),
    ensures
        as_int_pairs(final(v)@) == as_int_pairs(old(v)@) + opt(c, q),
        (forall|k: int| 0 <= k < old(v)@.len() ==> (#[trigger] old(v)@[k]).0 < w && old(v)@[k].1 < h)
            ==> (forall|k: int| 0 <= k < final(v)@.len() ==> (#[trigger] final(v)@[k]).0 < w && final(v)@[k].1 < h),
{
    reveal(opt);
    let ghost before = v@;
    if c {
        v.push(p);
        assert(as_int_pairs(v@) =~= as_int_pairs(before) + seq![q]);
    } else {
        assert(as_int_pairs(v@) =~= as_int_pairs(before) + Seq::<(int, int)>::empty());
    }
}

/// The squared distance of two colors (see `distance`).
fn distance_exec(a: Rgba, b: Rgba) -> (res: i32)
    ensures
        res == distance(a, b),
{
    let dr = a.r as i32 - b.r as i32;
    let dg = a.g as i32 - b.g as i32;
    let db = a.b as i32 - b.b as i32;
    let da = a.a as i32 - b.a as i32;
    assert(0 <= dr * dr <= 65025) by (nonlinear_arith)
        requires
            -255 <= dr <= 255,
    ;
    assert(0 <= dg * dg <= 65025) by (nonlinear_arith)
        requires
            -255 <= dg <= 255,
    ;
    assert(0 <= db * db <= 65025) by (nonlinear_arith)
        requires
            -255 <= db <= 255,
    ;
    assert(0 <= da * da <= 65025) by (nonlinear_arith)
        requires
            -255 <= da <= 255,
    ;
    dr * dr + dg * dg + db * db + da * da
}

/// The color the pixel at `(x, y)` is replaced with: of the colors of its
/// selected neighbours, the first closest to `pixel`; `pixel` itself where
/// none is selected.
/// The selected neighbours of `(x, y)`, in order (see `neighbours`).
#[verifier::rlimit(40)]
fn neighbour_list(x: u32, y: u32, width: u32, height: u32, base_radius: bool, diagonal_pixels: bool, extra_radius: bool, extra_extra_radius: bool) -> (ns: Vec<(u32, u32)>)
    requires
        x < width,
        y < height,
        width >= 3,
        height >= 3,
    ensures
        as_int_pairs(ns@) == neighbours(
            x as int,
            y as int,
            width as int,
            height as int,
            Radius { base_radius, diagonal_pixels, extra_radius, extra_extra_radius },
        ),
        forall|k: int| 0 <= k < ns@.len() ==> (#[trigger] ns@[k]).0 < width && ns@[k].1 < height,
{
    let r = Radius { base_radius, diagonal_pixels, extra_radius, extra_extra_radius };
    let (b, d, e, ee) = (base_radius, diagonal_pixels, extra_radius, extra_extra_radius);
    let mut ns: Vec<(u32, u32)> = Vec::new();
    let c = x > 0 && y > 0 && d;
    push_if(&mut ns, c, (if c { x - 1 } else { 0 }, if c { y - 1 } else { 0 }), width, height, Ghost((x as int - 1, y as int - 1)));
    assert(as_int_pairs(Seq::<(u32, u32)>::empty()) =~= Seq::<(int, int)>::empty());
    assert(as_int_pairs(Seq::<(u32, u32)>::empty()) + opt(c, (x as int - 1, y as int - 1)) =~= opt(c, (x as int - 1, y as int - 1)));
    let c = x > 1 && y > 1 && e && d;
    push_if(&mut ns, c, (if c { x - 2 } else { 0 }, if c { y - 2 } else { 0 }), width, height, Ghost((x as int - 2, y as int - 2)));
    let c = x > 0 && b;
    push_if(&mut ns, c, (if c { x - 1 } else { 0 }, y), width, height, Ghost((x as int - 1, y as int)));
    let c = x > 1 && e;
    push_if(&mut ns, c, (if c { x - 2 } else { 0 }, y), width, height, Ghost((x as int - 2, y as int)));
    let c = x > 2 && ee;
    push_if(&mut ns, c, (if c { x - 3 } else { 0 }, y), width, height, Ghost((x as int - 3, y as int)));
    let c = x < width - 1 && y < height - 1 && d;
    push_if(&mut ns, c, (if c { x + 1 } else { 0 }, if c { y + 1 } else { 0 }), width, height, Ghost((x as int + 1, y as int + 1)));
    let c = x < width - 2 && y < height - 2 && e && d;
    push_if(&mut ns, c, (if c { x + 2 } else { 0 }, if c { y + 2 } else { 0 }), width, height, Ghost((x as int + 2, y as int + 2)));
    let c = y > 0 && b;
    push_if(&mut ns, c, (x, if c { y - 1 } else { 0 }), width, height, Ghost((x as int, y as int - 1)));
    let c = y > 1 && e;
    push_if(&mut ns, c, (x, if c { y - 2 } else { 0 }), width, height, Ghost((x as int, y as int - 2)));
    let c = y > 2 && ee;
    push_if(&mut ns, c, (x, if c { y - 3 } else { 0 }), width, height, Ghost((x as int, y as int - 3)));
    let c = x < width - 1 && b;
    push_if(&mut ns, c, (if c { x + 1 } else { 0 }, y), width, height, Ghost((x as int + 1, y as int)));
    let c = x < width - 2 && e;
    push_if(&mut ns, c, (if c { x + 2 } else { 0 }, y), width, height, Ghost((x as int + 2, y as int)));
    let c = x < width - 3 && ee;
    push_if(&mut ns, c, (if c { x + 3 } else { 0 }, y), width, height, Ghost((x as int + 3, y as int)));
    let c = y < height - 1 && b;
    push_if(&mut ns, c, (x, if c { y + 1 } else { 0 }), width, height, Ghost((x as int, y as int + 1)));
    let c = y < height - 2 && e;
    push_if(&mut ns, c, (x, if c { y + 2 } else { 0 }), width, height, Ghost((x as int, y as int + 2)));
    let c = y < height - 3 && ee;
    push_if(&mut ns, c, (x, if c { y + 3 } else { 0 }), width, height, Ghost((x as int, y as int + 3)));
    let c = x < width - 1 && y > 0 && d;
    push_if(&mut ns, c, (if c { x + 1 } else { 0 }, if c { y - 1 } else { 0 }), width, height, Ghost((x as int + 1, y as int - 1)));
    let c = x < width - 2 && y > 1 && e && d;
    push_if(&mut ns, c, (if c { x + 2 } else { 0 }, if c { y - 2 } else { 0 }), width, height, Ghost((x as int + 2, y as int - 2)));
    let c = x > 0 && y < height - 1 && d;
    push_if(&mut ns, c, (if c { x - 1 } else { 0 }, if c { y + 1 } else { 0 }), width, height, Ghost((x as int - 1, y as int + 1)));
    let c = x > 1 && y < height - 2 && e && d;
    push_if(&mut ns, c, (if c { x - 2 } else { 0 }, if c { y + 2 } else { 0 }), width, height, Ghost((x as int - 2, y as int + 2)));
    assert(as_int_pairs(ns@) == neighbours(x as int, y as int, width as int, height as int, r));
    ns
}

pub fn find_closest_palette_color(
    pixel: Rgba,
    image: &Image,
    x: u32,
    y: u32,
    width: u32,
    height: u32,
    base_radius: bool,
    diagonal_pixels: bool,
    extra_radius: bool,
    extra_extra_radius: bool,
) -> (res: Rgba)
    requires
        image.wf(),
        width == image.width,
        height == image.height,
        x < width,
        y < height,
        width >= 3,
        height >= 3,
    ensures
        res == closest(
            pixel,
            palette(
                image.grid(),
                neighbours(
                    x as int,
                    y as int,
                    width as int,
                    height as int,
                    Radius { base_radius, diagonal_pixels, extra_radius, extra_extra_radius },
                ),
            ),
        ),
{
    let r = Radius { base_radius, diagonal_pixels, extra_radius, extra_extra_radius };
    let ns = neighbour_list(x, y, width, height, base_radius, diagonal_pixels, extra_radius, extra_extra_radius);
    let ghost nsp = neighbours(x as int, y as int, width as int, height as int, r);
    let ghost g = image.grid();
    let ghost pal = palette(g, nsp);
    if ns.len() == 0 {
        return pixel;
    }
    let mut best = get_pixel(image, ns[0].0, ns[0].1);
    let mut best_d = distance_exec(pixel, best);
    let mut i: usize = 1;
    proof {
        assert(pal.take(1).drop_last() =~= Seq::<Rgba>::empty());
        assert(as_int_pairs(ns@)[0] == nsp[0]);
    }
    while i < ns.len()
        invariant
            image.wf(),
            width == image.width,
            height == image.height,
            g == image.grid(),
            1 <= i <= ns@.len(),
            as_int_pairs(ns@) == nsp,
            pal == palette(g, nsp),
            forall|k: int| 0 <= k < ns@.len() ==> (#[trigger] ns@[k]).0 < width && ns@[k].1 < height,
            best == closest(pixel, pal.take(i as int)),
            best_d == distance(pixel, best),
        decreases ns.len() - i,
    {
        let c = get_pixel(image, ns[i].0, ns[i].1);
        proof {
            assert(as_int_pairs(ns@)[i as int] == nsp[i as int]);
            assert(pal[i as int] == c);
            assert(pal.take(i + 1).drop_last() =~= pal.take(i as int));
            assert(pal.take(i + 1).last() == c);
        }
        let dc = distance_exec(pixel, c);
        if dc < best_d {
            best = c;
            best_d = dc;
        }
        i = i + 1;
    }
    assert(pal.take(ns@.len() as int) =~= pal);
    best
}

/// One channel of the spread error, `(e * (mul / 16)) as u8`, and the
/// spread error of a pixel: zero whatever the error where `mul < 16`. Each
/// product is computed in `i16` and must fit there.
fn get_quant_error_mul(mul: u8, quant_error: (i16, i16, i16, i16)) -> (res: Rgba)
    requires
        i16::MIN <= quant_error.0 * (mul / 16) <= i16::MAX,
        i16::MIN <= quant_error.1 * (mul / 16) <= i16::MAX,
        i16::MIN <= quant_error.2 * (mul / 16) <= i16::MAX,
        i16::MIN <= quant_error.3 * (mul / 16) <= i16::MAX,
    ensures
        res == quant_error_mul(mul, quant_error),
        mul < 16 ==> res == (Rgba { r: 0, g: 0, b: 0, a: 0 }),
{
    let factor = (mul / 16) as i16;
    assert(factor == mul / 16);
    Rgba {
        r: (quant_error.0 * factor) as u8,
        g: (quant_error.1 * factor) as u8,
        b: (quant_error.2 * factor) as u8,
        a: (quant_error.3 * factor) as u8,
    }
}

/// The channel sums of two colors (which do not overflow).
fn add_colors(x1: Rgba, x2: Rgba) -> (res: Rgba)
    requires
        x1.r + x2.r <= 255,
        x1.g + x2.g <= 255,
        x1.b + x2.b <= 255,
        x1.a + x2.a <= 255,
    ensures
        res == add_colors_spec(x1, x2),
{
    Rgba { r: x1.r + x2.r, g: x1.g + x2.g, b: x1.b + x2.b, a: x1.a + x2.a }
}


/// Spreads the error of a pixel to the one at `(x, y)` with weight `mul`.
fn spread_exec(image: &mut Image, x: u32, y: u32, mul: u8, e: (i16, i16, i16, i16))
    requires
        old(image).wf(),
        x < old(image).width,
        y < old(image).height,
        mul < 16,
        -255 <= e.0 <= 255,
        -255 <= e.1 <= 255,
        -255 <= e.2 <= 255,
        -255 <= e.3 <= 255,
    ensures
        final(image).wf(),
        final(image).width == old(image).width,
        final(image).height == old(image).height,
        final(image).grid() == spread(old(image).grid(), x as int, y as int, mul, e),
{
    let q = get_quant_error_mul(mul, e);
    assert(mul / 16 == 0);
    assert(((mul / 16) as i16) == 0);
    assert(e.0 * 0i16 == 0 && e.1 * 0i16 == 0 && e.2 * 0i16 == 0 && e.3 * 0i16 == 0);
    assert(q.r == 0 && q.g == 0 && q.b == 0 && q.a == 0);
    let cur = get_pixel(image, x, y);
    let v = add_colors(cur, q);
    put_pixel(image, x, y, v);
}

/// The lossy pass over the whole image, in scan order (see `dither_rows`).
/// Where the image has pixels, it is at least 3 by 3 (the neighbour bounds
/// `width - 3` and `height - 3` are computed in `u32`).
pub fn floyd_steinberg_dither(
    image: &mut Image,
    base_radius: bool,
    diagonal_pixels: bool,
    extra_radius: bool,
    extra_extra_radius: bool,
)
    requires
        old(image).wf(),
        old(image).width == 0 || old(image).height == 0 || (old(image).width >= 3 && old(image).height >= 3),
    ensures
        final(image).wf(),
        final(image).width == old(image).width,
        final(image).height == old(image).height,
        final(image).grid() == dither_rows(
            old(image).grid(),
            old(image).height as int,
            old(image).width as int,
            old(image).height as int,
            Radius { base_radius, diagonal_pixels, extra_radius, extra_extra_radius },
        ),
{
    let r = Radius { base_radius, diagonal_pixels, extra_radius, extra_extra_radius };
    let ghost g0 = image.grid();
    let width = image.width;
    let height = image.height;
    let mut y: u32 = 0;
    while y < height
        invariant
            r == (Radius { base_radius, diagonal_pixels, extra_radius, extra_extra_radius }),
            image.wf(),
            image.width == width,
            image.height == height,
            width == 0 || height == 0 || (width >= 3 && height >= 3),
            y <= height,
            image.grid() == dither_rows(g0, y as int, width as int, height as int, r),
        decreases height - y,
    {
        let mut x: u32 = 0;
        let ghost row_start = image.grid();
        while x < width
            invariant
                r == (Radius { base_radius, diagonal_pixels, extra_radius, extra_extra_radius }),
                image.wf(),
                image.width == width,
                image.height == height,
                width == 0 || (width >= 3 && height >= 3),
                y < height,
                x <= width,
                row_start == dither_rows(g0, y as int, width as int, height as int, r),
                image.grid() == dither_row(row_start, y as int, x as int, width as int, height as int, r),
            decreases width - x,
        {
            let ghost g = image.grid();
            let old_pixel = get_pixel(image, x, y);
            let new_pixel = find_closest_palette_color(
                old_pixel,
                image,
                x,
                y,
                width,
                height,
                base_radius,
                diagonal_pixels,
                extra_radius,
                extra_extra_radius,
            );
            assert(old_pixel == g[y as int][x as int]);
            assert(r == Radius { base_radius, diagonal_pixels, extra_radius, extra_extra_radius });
            assert(new_pixel == closest_palette_color(g, x as int, y as int, width as int, height as int, r));
            put_pixel(image, x, y, new_pixel);
            let ghost g1 = image.grid();
            assert(g1 == set_px(g, x as int, y as int, new_pixel));
            let e = (
                old_pixel.r as i16 - new_pixel.r as i16,
                old_pixel.g as i16 - new_pixel.g as i16,
                old_pixel.b as i16 - new_pixel.b as i16,
                old_pixel.a as i16 - new_pixel.a as i16,
            );
            if x < width - 1 {
                spread_exec(image, x + 1, y, 7, e);
            }
            let ghost g2 = image.grid();
            assert(g2 == if x < width - 1 { spread(g1, x + 1, y as int, 7, e) } else { g1 });
            if x > 0 && y < height - 1 {
                spread_exec(image, x - 1, y + 1, 3, e);
            }
            let ghost g3 = image.grid();
            assert(g3 == if x > 0 && y < height - 1 { spread(g2, x - 1, y + 1, 3, e) } else { g2 });
            if y < height - 1 {
                spread_exec(image, x, y + 1, 5, e);
            }
            let ghost g4 = image.grid();
            assert(g4 == if y < height - 1 { spread(g3, x as int, y + 1, 5, e) } else { g3 });
            if x < width - 1 && y < height - 1 {
                spread_exec(image, x + 1, y + 1, 1, e);
            }
            assert(image.grid() == dither_step(g, x as int, y as int, width as int, height as int, r));
            x = x + 1;
        }
        y = y + 1;
    }
}

} // verus!
