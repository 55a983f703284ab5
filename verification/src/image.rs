use vstd::prelude::*;

verus! {

/// Clamps a signed coordinate into `0..extent` (the caller guarantees `extent >= 1`).
pub open spec fn clamp_coord(v: int, extent: int) -> int {
    if v < 0 {
        0
    } else if v > extent - 1 {
        extent - 1
    } else {
        v
    }
}

pub open spec fn min_usize(a: int, b: int) -> int {
    if a <= b {
        a
    } else {
        b
    }
}

/// Clamping puts every coordinate inside `0..extent`, leaves one already inside alone,
/// sends those before the grid to its first position and those past it to its last, and
/// never reverses the order of two coordinates.
pub proof fn lemma_clamp_coord(v: int, w: int, extent: int)
    requires
        extent >= 1,
    ensures
        0 <= clamp_coord(v, extent) < extent,
        0 <= v < extent ==> clamp_coord(v, extent) == v,
        v < 0 ==> clamp_coord(v, extent) == 0,
        v >= extent ==> clamp_coord(v, extent) == extent - 1,
        v <= w ==> clamp_coord(v, extent) <= clamp_coord(w, extent),
{
}

/// The smaller of two values is no larger than either and is one of them.
pub proof fn lemma_min_usize(a: int, b: int)
    ensures
        min_usize(a, b) <= a,
        min_usize(a, b) <= b,
        min_usize(a, b) == a || min_usize(a, b) == b,
{
}

/// A row-major grid of pixels.
pub struct Image<T> {
    width: usize,
    height: usize,
    pixels: Vec<T>,
}

impl<T> Image<T> {
    pub closed spec fn spec_width(&self) -> usize {
        self.width
    }

    pub closed spec fn spec_height(&self) -> usize {
        self.height
    }

    pub closed spec fn spec_pixels(&self) -> Seq<T> {
        self.pixels@
    }

    /// Position of pixel `(x, y)` in the row-major buffer.
    pub open spec fn pixel_index(&self, x: int, y: int) -> int {
        y * self.spec_width() + x
    }

    /// The buffer holds exactly one pixel per grid cell.
    pub open spec fn wf(&self) -> bool {
        self.spec_pixels().len() == self.spec_width() * self.spec_height()
    }

    pub fn new(width: usize, height: usize, pixels: Vec<T>) -> (image: Self)
        ensures
            image.spec_width() == width,
            image.spec_height() == height,
            image.spec_pixels() == pixels@,
    {
        Self { width, height, pixels }
    }

    pub fn width(&self) -> (w: usize)
        ensures
            w == self.spec_width(),
    {
        self.width
    }

    pub fn height(&self) -> (h: usize)
        ensures
            h == self.spec_height(),
    {
        self.height
    }

    /// Width and height as a pair.
    pub fn resolution(&self) -> (r: (usize, usize))
        ensures
            r == (self.spec_width(), self.spec_height()),
    {
        (self.width, self.height)
    }

    /// The pixel at `(x, y)`, or `None` when its row-major position lies past the buffer.
    pub fn get_pixel(&self, x: usize, y: usize) -> (r: Option<&T>)
        requires
            self.pixel_index(x as int, y as int) <= usize::MAX,
        ensures
            self.pixel_index(x as int, y as int) < self.spec_pixels().len() ==> r == Some(
                &self.spec_pixels()[self.pixel_index(x as int, y as int)],
            ),
            self.pixel_index(x as int, y as int) >= self.spec_pixels().len() ==> r is None,
    {
        let i = y * self.width + x;
        if i < self.pixels.len() {
            Some(&self.pixels[i])
        } else {
            None
        }
    }

    /// The pixel at `(x, y)` after clamping both coordinates into the grid, whose sides
    /// are taken as `i32`.
    pub fn get_pixel_wrapped(&self, x: i32, y: i32) -> (r: &T)
        requires
            self.spec_width() as i32 >= 1,
            self.spec_height() as i32 >= 1,
            self.pixel_index(
                clamp_coord(x as int, (self.spec_width() as i32) as int),
                clamp_coord(y as int, (self.spec_height() as i32) as int),
            ) < self.spec_pixels().len(),
        ensures
            *r == self.spec_pixels()[self.pixel_index(
                clamp_coord(x as int, (self.spec_width() as i32) as int),
                clamp_coord(y as int, (self.spec_height() as i32) as int),
            )],
    {
        // Reading the length brings in that it fits a usize.
        let _pixel_count = self.pixels.len();
        let max_x: i32 = self.width as i32 - 1;
        let max_y: i32 = self.height as i32 - 1;
        let cx: i32 = if x < 0 {
            0
        } else if x > max_x {
            max_x
        } else {
            x
        };
        let cy: i32 = if y < 0 {
            0
        } else if y > max_y {
            max_y
        } else {
            y
        };
        assert(cx as int == clamp_coord(x as int, (self.spec_width() as i32) as int));
        assert(cy as int == clamp_coord(y as int, (self.spec_height() as i32) as int));
        let cx = cx as usize;
        let cy = cy as usize;
        proof {
            assert(0 <= cy * self.width) by (nonlinear_arith)
                requires
                    0 <= cy,
                    0 <= self.width,
            ;
            assert(self.pixel_index(cx as int, cy as int) < self.pixels@.len());
            assert(cy * self.width + cx == self.pixel_index(cx as int, cy as int));
        }
        let row_start = cy * self.width;
        &self.pixels[row_start + cx]
    }

    /// The pixel at `(x, y)` after moving coordinates past the right or bottom edge onto
    /// that edge.
    pub fn get_pixel_clamped(&self, x: usize, y: usize) -> (r: &T)
        requires
            self.wf(),
            self.spec_width() >= 1,
            self.spec_height() >= 1,
        ensures
            *r == self.spec_pixels()[self.pixel_index(
                min_usize(x as int, self.spec_width() - 1),
                min_usize(y as int, self.spec_height() - 1),
            )],
    {
        // Reading the length brings in that it fits a usize.
        let _pixel_count = self.pixels.len();
        let cx = if x < self.width - 1 {
            x
        } else {
            self.width - 1
        };
        let cy = if y < self.height - 1 {
            y
        } else {
            self.height - 1
        };
        proof {
            assert(cy * self.width + cx < self.width * self.height) by (nonlinear_arith)
                requires
                    cx < self.width,
                    cy < self.height,
            ;
            assert(0 <= cy * self.width) by (nonlinear_arith)
                requires
                    0 <= cy,
                    0 <= self.width,
            ;
        }
        let row_start = cy * self.width;
        &self.pixels[row_start + cx]
    }

    /// The whole row-major buffer.
    pub fn pixels(&self) -> (s: &[T])
        ensures
            s@ == self.spec_pixels(),
    {
        self.pixels.as_slice()
    }

    /// Mutable access to the whole row-major buffer.
    pub fn as_slice_mut(&mut self) -> (s: &mut [T])
        ensures
            s@ == old(self).spec_pixels(),
            final(self).spec_pixels() == final(s)@,
            final(self).spec_width() == old(self).spec_width(),
            final(self).spec_height() == old(self).spec_height(),
    {
        self.pixels.as_mut_slice()
    }
}

} // verus!
