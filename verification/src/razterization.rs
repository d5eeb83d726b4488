//! Straight lines on the canvas.

use vstd::prelude::*;
use crate::arith::{lemma_trunc_div_between, trunc_div};
use crate::canvas::{lemma_pixel_index_in_range, pixel_index, Canvas};
use crate::color::Color;

verus! {

/// A point of the canvas.
#[derive(Clone, Copy, Debug, PartialEq, Eq, Structural)]
pub struct P2(pub i32, pub i32);

/// The value at `i` of the straight line that runs from `d0` at `i0` to `d1`
/// at `i1`, rounded towards zero.
pub open spec fn spec_interpolate(i0: int, d0: int, i1: int, d1: int, i: int) -> int {
    if i0 == i1 {
        d0
    } else {
        trunc_div(d0 * (i1 - i0) + (i - i0) * (d1 - d0), i1 - i0)
    }
}

/// The points of the line from `p0` to `p1`. A line that is wider than it is
/// high has one point for each `x` from left to right; any other line has
/// one point for each `y` from bottom to top.
pub open spec fn spec_line_points(p0: P2, p1: P2) -> Seq<(i32, i32)> {
    let dx = p1.0 - p0.0;
    let dy = p1.1 - p0.1;
    if vstd::math::abs(dx) > vstd::math::abs(dy) {
        let (a, b) = if p0.0 > p1.0 {
            (p1, p0)
        } else {
            (p0, p1)
        };
        Seq::new(
            (b.0 - a.0 + 1) as nat,
            |k: int|
                (
                    (a.0 + k) as i32,
                    spec_interpolate(a.0 as int, a.1 as int, b.0 as int, b.1 as int, a.0 + k) as i32,
                ),
        )
    } else {
        let (a, b) = if p0.1 > p1.1 {
            (p1, p0)
        } else {
            (p0, p1)
        };
        Seq::new(
            (b.1 - a.1 + 1) as nat,
            |k: int|
                (
                    spec_interpolate(a.1 as int, a.0 as int, b.1 as int, b.0 as int, a.1 + k) as i32,
                    (a.1 + k) as i32,
                ),
        )
    }
}

/// The pixels `before` with every one of `points` that the grid has painted
/// in `color`.
pub open spec fn spec_painted(
    before: Seq<Color>,
    width: nat,
    height: nat,
    points: Seq<(i32, i32)>,
    color: Color,
) -> Seq<Color> {
    Seq::new(
        before.len(),
        |i: int|
            if exists|k: int|
                0 <= k < points.len() && #[trigger] pixel_index(
                    width,
                    height,
                    points[k].0 as int,
                    points[k].1 as int,
                ) == Some(i) {
                color
            } else {
                before[i]
            },
    )
}

/// Exchanges the two points.
pub fn swap(p0: &mut P2, p1: &mut P2)
    ensures
        *final(p0) == *old(p1),
        *final(p1) == *old(p0),
{
    let tmp = *p0;
    *p0 = *p1;
    *p1 = tmp;
}

/// The interpolated value stays between the two ends.
proof fn lemma_interpolate_between(i0: int, d0: int, i1: int, d1: int, i: int)
    requires
        i0 <= i <= i1,
    ensures
        d0 <= d1 ==> d0 <= spec_interpolate(i0, d0, i1, d1, i) <= d1,
        d1 <= d0 ==> d1 <= spec_interpolate(i0, d0, i1, d1, i) <= d0,
{
    if i0 != i1 {
        let n = i1 - i0;
        let k = i - i0;
        let num = d0 * n + k * (d1 - d0);
        if d0 <= d1 {
            assert(d0 * n <= num <= d1 * n) by (nonlinear_arith)
                requires
                    num == d0 * n + k * (d1 - d0),
                    0 <= k <= n,
                    d0 <= d1,
            ;
            lemma_trunc_div_between(num, n, d0, d1);
        } else {
            assert(d1 * n <= num <= d0 * n) by (nonlinear_arith)
                requires
                    num == d0 * n + k * (d1 - d0),
                    0 <= k <= n,
                    d1 <= d0,
            ;
            lemma_trunc_div_between(num, n, d1, d0);
        }
    }
}

/// The values of the straight line from `d0` at `i0` to `d1` at `i1`, one
/// for each whole number from `i0` to `i1`, each paired with its place.
/// There is no such number where `i0` lies beyond `i1`, and the list is
/// then empty.
pub fn interpolate(i0: i32, d0: i32, i1: i32, d1: i32) -> (values: Vec<(i32, i32)>)
    ensures
        values@.len() == if i0 <= i1 {
            i1 - i0 + 1
        } else {
            0
        },
        forall|k: int|
            0 <= k < values@.len() ==> values@[k] == (
                (i0 + k) as i32,
                spec_interpolate(i0 as int, d0 as int, i1 as int, d1 as int, i0 + k) as i32,
            ),
{
    let mut values: Vec<(i32, i32)> = Vec::new();
    if i0 > i1 {
        return values;
    }
    if i0 == i1 {
        values.push((i0, d0));
        return values;
    }
    let n: i128 = i1 as i128 - i0 as i128;
    let delta: i128 = d1 as i128 - d0 as i128;
    let mut k: i128 = 0;
    while k <= n
        invariant
            0 <= k <= n + 1,
            n == i1 - i0,
            n > 0,
            delta == d1 - d0,
            values@.len() == k,
            forall|j: int|
                0 <= j < k ==> values@[j] == (
                    (i0 + j) as i32,
                    spec_interpolate(i0 as int, d0 as int, i1 as int, d1 as int, i0 + j) as i32,
                ),
        decreases n + 1 - k,
    {
        proof {
            lemma_interpolate_between(i0 as int, d0 as int, i1 as int, d1 as int, i0 + k);
            assert(-0x1_0000_0000_0000_0000 <= d0 * n <= 0x1_0000_0000_0000_0000) by (nonlinear_arith)
                requires
                    -0x8000_0000 <= d0 <= 0x8000_0000,
                    0 <= n <= 0x1_0000_0000,
            ;
            assert(-0x1_0000_0000_0000_0000 <= k * delta <= 0x1_0000_0000_0000_0000) by (nonlinear_arith)
                requires
                    -0x1_0000_0000 <= delta <= 0x1_0000_0000,
                    0 <= k <= 0x1_0000_0000,
            ;
        }
        let num: i128 = (d0 as i128) * n + k * delta;
        let d: i128 = num / n;
        values.push(((i0 as i128 + k) as i32, d as i32));
        k = k + 1;
    }
    values
}

impl Canvas {
    /// Paints every one of `pixels` that the grid has.
    pub fn put_pixels(&mut self, pixels: &[(i32, i32)], color: Color)
        requires
            old(self).wf(),
        ensures
            final(self).wf(),
            final(self).spec_width() == old(self).spec_width(),
            final(self).spec_height() == old(self).spec_height(),
            final(self)@ == spec_painted(
                old(self)@,
                old(self).spec_width(),
                old(self).spec_height(),
                pixels@,
                color,
            ),
    {
        let ghost before = self@;
        let ghost width = self.spec_width();
        let ghost height = self.spec_height();
        let mut i: usize = 0;
        proof {
            self.lemma_size();
        }
        assert(self@ =~= spec_painted(before, width, height, pixels@.subrange(0, 0), color));
        while i < pixels.len()
            invariant
                i <= pixels.len(),
                before.len() == width * height,
                self.wf(),
                self.spec_width() == width,
                self.spec_height() == height,
                self@ == spec_painted(before, width, height, pixels@.subrange(0, i as int), color),
            decreases pixels.len() - i,
        {
            let (x, y) = pixels[i];
            let ghost done = pixels@.subrange(0, i as int);
            let ghost more = pixels@.subrange(0, i + 1);
            self.put_pixel(x, y, color);
            proof {
                let next = spec_painted(before, width, height, more, color);
                lemma_pixel_index_in_range(width, height, x as int, y as int);
                assert forall|j: int| 0 <= j < before.len() implies self@[j] == next[j] by {
                    let hit_done = exists|k: int|
                        0 <= k < done.len() && #[trigger] pixel_index(
                            width,
                            height,
                            done[k].0 as int,
                            done[k].1 as int,
                        ) == Some(j);
                    let hit_more = exists|k: int|
                        0 <= k < more.len() && #[trigger] pixel_index(
                            width,
                            height,
                            more[k].0 as int,
                            more[k].1 as int,
                        ) == Some(j);
                    let here = pixel_index(width, height, x as int, y as int) == Some(j);
                    if hit_done {
                        let k = choose|k: int|
                            0 <= k < done.len() && #[trigger] pixel_index(
                                width,
                                height,
                                done[k].0 as int,
                                done[k].1 as int,
                            ) == Some(j);
                        assert(more[k] == done[k]);
                        assert(hit_more);
                    }
                    if here {
                        assert(more[i as int] == (x, y));
                        assert(hit_more);
                    }
                    if hit_more {
                        let k = choose|k: int|
                            0 <= k < more.len() && #[trigger] pixel_index(
                                width,
                                height,
                                more[k].0 as int,
                                more[k].1 as int,
                            ) == Some(j);
                        if k < i {
                            assert(done[k] == more[k]);
                            assert(hit_done);
                        } else {
                            assert(here);
                        }
                    }
                }
                assert(self@ =~= next);
            }
            i = i + 1;
        }
        assert(pixels@.subrange(0, i as int) == pixels@);
    }

    /// Draws the straight line from `p0` to `p1`.
    pub fn draw_line(&mut self, p0: P2, p1: P2, color: Color)
        requires
            old(self).wf(),
        ensures
            final(self).wf(),
            final(self).spec_width() == old(self).spec_width(),
            final(self).spec_height() == old(self).spec_height(),
            final(self)@ == spec_painted(
                old(self)@,
                old(self).spec_width(),
                old(self).spec_height(),
                spec_line_points(p0, p1),
                color,
            ),
    {
        let mut a = p0;
        let mut b = p1;
        let dx: i64 = p1.0 as i64 - p0.0 as i64;
        let dy: i64 = p1.1 as i64 - p0.1 as i64;
        let abs_dx: i64 = if dx < 0 {
            -dx
        } else {
            dx
        };
        let abs_dy: i64 = if dy < 0 {
            -dy
        } else {
            dy
        };
        if abs_dx > abs_dy {
            if p0.0 > p1.0 {
                swap(&mut a, &mut b);
            }
            let points = interpolate(a.0, a.1, b.0, b.1);
            assert(points@ =~= spec_line_points(p0, p1));
            self.put_pixels(points.as_slice(), color);
        } else {
            if p0.1 > p1.1 {
                swap(&mut a, &mut b);
            }
            let pairs = interpolate(a.1, a.0, b.1, b.0);
            let mut points: Vec<(i32, i32)> = Vec::new();
            let mut i: usize = 0;
            while i < pairs.len()
                invariant
                    i <= pairs.len(),
                    points@.len() == i,
                    forall|k: int| 0 <= k < i ==> points@[k] == (pairs@[k].1, pairs@[k].0),
                decreases pairs.len() - i,
            {
                let (y, x) = pairs[i];
                points.push((x, y));
                i = i + 1;
            }
            assert(points@ =~= spec_line_points(p0, p1));
            self.put_pixels(points.as_slice(), color);
        }
    }
}

} // verus!
