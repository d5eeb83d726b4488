//! The canvas: a grid of pixels that is painted through coordinates whose
//! origin lies at the centre of the grid and whose y-axis points up.

use vstd::prelude::*;
use crate::color::Color;

verus! {

/// The place in row-major storage of the pixel at canvas coordinates
/// `(x, y)` on a grid of `w` by `h` pixels: column `w / 2 + x` of row
/// `h / 2 - y`. `None` where that lies outside the grid.
pub open spec fn pixel_index(w: nat, h: nat, x: int, y: int) -> Option<int> {
    let col = (w / 2) as int + x;
    let row = (h / 2) as int - y;
    if 0 <= col < w && 0 <= row < h {
        Some(row * w + col)
    } else {
        None
    }
}

/// A pixel of the grid has its place within the `w * h` places of storage.
pub proof fn lemma_pixel_index_in_range(w: nat, h: nat, x: int, y: int)
    ensures
        pixel_index(w, h, x, y) matches Some(i) ==> 0 <= i < w * h,
{
    let col = (w / 2) as int + x;
    let row = (h / 2) as int - y;
    if 0 <= col < w && 0 <= row < h {
        assert(0 <= row * w + col < w * h) by (nonlinear_arith)
            requires
                0 <= col < w,
                0 <= row < h,
        ;
    }
}

/// A rectangular surface of pixels.
pub struct Canvas {
    w: usize,
    h: usize,
    pixels: Vec<Color>,
}

impl View for Canvas {
    type V = Seq<Color>;

    /// The pixels, row by row from the top.
    closed spec fn view(&self) -> Seq<Color> {
        self.pixels@
    }
}

impl Canvas {
    /// The canvas holds one pixel for each place of its grid. Every canvas
    /// that this library hands out is well formed.
    pub closed spec fn wf(&self) -> bool {
        self.pixels@.len() == self.w * self.h
    }

    /// A well-formed canvas has `width * height` pixels.
    pub proof fn lemma_size(&self)
        requires
            self.wf(),
        ensures
            self@.len() == self.spec_width() * self.spec_height(),
            self.spec_width() <= usize::MAX,
            self.spec_height() <= usize::MAX,
    {
    }

    /// The number of columns.
    pub closed spec fn spec_width(&self) -> nat {
        self.w as nat
    }

    /// The number of rows.
    pub closed spec fn spec_height(&self) -> nat {
        self.h as nat
    }

    /// A canvas of `w` by `h` pixels, all of them of the background color.
    pub fn new(w: usize, h: usize) -> (canvas: Canvas)
        requires
            w * h <= usize::MAX,
        ensures
            canvas.wf(),
            canvas.spec_width() == w,
            canvas.spec_height() == h,
            canvas@ == Seq::new((w * h) as nat, |i: int| Color::spec_background()),
    {
        let n: usize = w * h;
        let mut pixels: Vec<Color> = Vec::new();
        let mut i: usize = 0;
        while i < n
            invariant
                i <= n,
                pixels@ == Seq::new(i as nat, |i: int| Color::spec_background()),
            decreases n - i,
        {
            pixels.push(Color::background());
            i = i + 1;
        }
        Canvas { w, h, pixels }
    }

    /// A canvas of `w` by `h` pixels that holds `pixels`, row by row from the top.
    pub(crate) fn from_parts(w: usize, h: usize, pixels: Vec<Color>) -> (canvas: Canvas)
        requires
            pixels@.len() == w * h,
        ensures
            canvas.wf(),
            canvas.spec_width() == w,
            canvas.spec_height() == h,
            canvas@ == pixels@,
    {
        Canvas { w, h, pixels }
    }

    /// The pixels, row by row from the top.
    pub fn pixels(&self) -> (r: &Vec<Color>)
        ensures
            r@ == self@,
    {
        &self.pixels
    }

    /// The number of columns.
    pub fn width(&self) -> (w: usize)
        ensures
            w == self.spec_width(),
    {
        self.w
    }

    /// The number of rows.
    pub fn height(&self) -> (h: usize)
        ensures
            h == self.spec_height(),
    {
        self.h
    }

    /// The column and the row of the pixel at canvas coordinates `(x, y)`.
    pub fn canvas_to_screen_coordinate(&self, x: i32, y: i32) -> (r: (i32, i32))
        requires
            i32::MIN <= self.spec_width() / 2 + x <= i32::MAX,
            i32::MIN <= self.spec_height() / 2 - y <= i32::MAX,
        ensures
            r.0 == self.spec_width() / 2 + x,
            r.1 == self.spec_height() / 2 - y,
    {
        let sx: i64 = (self.w / 2) as i64 + x as i64;
        let sy: i64 = (self.h / 2) as i64 - y as i64;
        (sx as i32, sy as i32)
    }

    /// The place in storage of the pixel at `(x, y)`, if the grid has it.
    fn index_of(&self, x: i32, y: i32) -> (r: Option<usize>)
        requires
            self.wf(),
        ensures
            match pixel_index(self.spec_width(), self.spec_height(), x as int, y as int) {
                Some(i) => r matches Some(k) && k == i && 0 <= i < self@.len(),
                None => r is None,
            },
    {
        let col: i128 = (self.w / 2) as i128 + x as i128;
        let row: i128 = (self.h / 2) as i128 - y as i128;
        if 0 <= col && col < self.w as i128 && 0 <= row && row < self.h as i128 {
            let c: usize = col as usize;
            let r: usize = row as usize;
            assert(self.w * self.h == self.pixels.len());
            assert(r * self.w + c < self.w * self.h && 0 <= r * self.w) by (nonlinear_arith)
                requires
                    0 <= c < self.w,
                    0 <= r < self.h,
            ;
            Some(r * self.w + c)
        } else {
            None
        }
    }

    /// Paints the pixel at canvas coordinates `(x, y)`. A pixel outside the
    /// grid is not painted, and nothing else happens.
    pub fn put_pixel(&mut self, x: i32, y: i32, color: Color)
        requires
            old(self).wf(),
        ensures
            final(self).wf(),
            final(self).spec_width() == old(self).spec_width(),
            final(self).spec_height() == old(self).spec_height(),
            final(self)@.len() == old(self)@.len(),
            final(self)@ == match pixel_index(
                old(self).spec_width(),
                old(self).spec_height(),
                x as int,
                y as int,
            ) {
                Some(i) => old(self)@.update(i, color),
                None => old(self)@,
            },
    {
        match self.index_of(x, y) {
            Some(i) => {
                self.pixels.set(i, color);
            },
            None => {},
        }
    }

    /// The color of the pixel at canvas coordinates `(x, y)`, if the grid has it.
    pub fn pixel(&self, x: i32, y: i32) -> (r: Option<Color>)
        requires
            self.wf(),
        ensures
            r == match pixel_index(self.spec_width(), self.spec_height(), x as int, y as int) {
                Some(i) => Some(self@[i]),
                None => None,
            },
    {
        match self.index_of(x, y) {
            Some(i) => Some(self.pixels[i]),
            None => None,
        }
    }

    /// Paints every pixel in the background color.
    pub fn clear(&mut self)
        requires
            old(self).wf(),
        ensures
            final(self).wf(),
            final(self).spec_width() == old(self).spec_width(),
            final(self).spec_height() == old(self).spec_height(),
            final(self)@ == Seq::new(old(self)@.len(), |i: int| Color::spec_background()),
    {
        let n: usize = self.pixels.len();
        let mut i: usize = 0;
        while i < n
            invariant
                i <= n,
                n == self.pixels@.len(),
                self.w == old(self).w,
                self.h == old(self).h,
                self.pixels@.len() == old(self).pixels@.len(),
                forall|j: int| 0 <= j < i ==> self.pixels@[j] == Color::spec_background(),
            decreases n - i,
        {
            self.pixels.set(i, Color::background());
            i = i + 1;
        }
        assert(self.pixels@ =~= Seq::new(old(self)@.len(), |i: int| Color::spec_background()));
    }
}

} // verus!
