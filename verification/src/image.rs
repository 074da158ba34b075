//! An RGBA image held as rows of pixels.
use vstd::prelude::*;
use crate::color::Rgba;

verus! {

/// An image: `rows[y][x]` is the pixel at column `x` of row `y`.
pub struct Image {
    pub width: u32,
    pub height: u32,
    pub rows: Vec<Vec<Rgba>>,
}

/// The pixels of an image as a mathematical grid.
pub open spec fn grid_of(rows: Seq<Vec<Rgba>>) -> Seq<Seq<Rgba>> {
    rows.map_values(|r: Vec<Rgba>| r@)
}

impl Image {
    /// Every row has `width` pixels, and there are `height` rows.
    pub open spec fn wf(&self) -> bool {
        &&& self.rows@.len() == self.height
        &&& forall|y: int| 0 <= y < self.rows@.len() ==> (#[trigger] self.rows@[y])@.len() == self.width
    }

    pub open spec fn grid(&self) -> Seq<Seq<Rgba>> {
        grid_of(self.rows@)
    }

    /// The pixel at column `x` of row `y`.
    pub open spec fn pixel(&self, x: int, y: int) -> Rgba {
        self.rows@[y]@[x]
    }
}

/// A grid of `height` rows of `width` pixels, all `p`.
pub open spec fn filled(width: nat, height: nat, p: Rgba) -> Seq<Seq<Rgba>> {
    Seq::new(height, |y: int| Seq::new(width, |x: int| p))
}

/// An image of the given size, every pixel `p` (`ImageBuffer::from_pixel`).
pub fn from_pixel(width: u32, height: u32, p: Rgba) -> (res: Image)
    ensures
        res.wf(),
        res.width == width,
        res.height == height,
        res.grid() == filled(width as nat, height as nat, p),
{
    let mut row: Vec<Rgba> = Vec::new();
    let mut x: u32 = 0;
    while x < width
        invariant
            x <= width,
            row@ == Seq::new(x as nat, |i: int| p),
        decreases width - x,
    {
        row.push(p);
        x = x + 1;
        assert(row@ =~= Seq::new(x as nat, |i: int| p));
    }
    let mut rows: Vec<Vec<Rgba>> = Vec::new();
    let mut y: u32 = 0;
    while y < height
        invariant
            y <= height,
            row@ == Seq::new(width as nat, |i: int| p),
            rows@.len() == y,
            forall|j: int| 0 <= j < y ==> (#[trigger] rows@[j])@ == Seq::new(width as nat, |i: int| p),
        decreases height - y,
    {
        rows.push(row.clone());
        y = y + 1;
    }
    let res = Image { width, height, rows };
    assert(res.grid() =~= filled(width as nat, height as nat, p));
    res
}

/// Sets the pixel at column `x` of row `y` (`ImageBuffer::put_pixel`).
pub fn put_pixel(img: &mut Image, x: u32, y: u32, p: Rgba)
    requires
        old(img).wf(),
        x < old(img).width,
        y < old(img).height,
    ensures
        final(img).wf(),
        final(img).width == old(img).width,
        final(img).height == old(img).height,
        final(img).grid() == old(img).grid().update(y as int, old(img).grid()[y as int].update(x as int, p)),
{
    let ghost g = img.grid();
    img.rows[y as usize].set(x as usize, p);
    assert(img.grid() =~= g.update(y as int, g[y as int].update(x as int, p)));
}

/// The pixel at column `x` of row `y`.
pub fn get_pixel(img: &Image, x: u32, y: u32) -> (res: Rgba)
    requires
        img.wf(),
        x < img.width,
        y < img.height,
    ensures
        res == img.pixel(x as int, y as int),
        res == img.grid()[y as int][x as int],
{
    img.rows[y as usize][x as usize]
}

} // verus!
