//! Straight lines and wireframe triangles.
use vstd::prelude::*;
use crate::buffer::{opaque, Buffer};
use crate::interpolate::{interp_len, interp_sample, interpolate, lemma_sample_within};
use crate::ratio::{Frac, Ratio};

verus! {

/// Whether the line between `p0` and `p1` spans more columns than rows, so
/// that it is drawn with one pixel per column.
pub open spec fn is_flat(p0: [u32; 2], p1: [u32; 2]) -> bool {
    vstd::math::abs(p1[0] - p0[0]) > vstd::math::abs(p1[1] - p0[1])
}

/// Whether drawing the line between `p0` and `p1` paints the pixel `(x, y)`.
///
/// A flat line is walked from its left end: for each column it paints the row
/// interpolated between the two ends, truncated. Any other line is walked
/// from its upper end: for each row it paints the interpolated column. The
/// walk takes one step per interpolated sample, so the far end itself is not
/// painted, and a line of a single point paints that point.
pub open spec fn on_line(p0: [u32; 2], p1: [u32; 2], x: int, y: int) -> bool {
    if is_flat(p0, p1) {
        let a = if p0[0] > p1[0] { p1 } else { p0 };
        let b = if p0[0] > p1[0] { p0 } else { p1 };
        let k = x - a[0];
        &&& 0 <= k < interp_len(a[0] as int, b[0] as int)
        &&& y == interp_sample(
            a[0] as int,
            Frac::whole(a[1] as int),
            b[0] as int,
            Frac::whole(b[1] as int),
            k,
        ).truncated()
    } else {
        let a = if p0[1] > p1[1] { p1 } else { p0 };
        let b = if p0[1] > p1[1] { p0 } else { p1 };
        let k = y - a[1];
        &&& 0 <= k < interp_len(a[1] as int, b[1] as int)
        &&& x == interp_sample(
            a[1] as int,
            Frac::whole(a[0] as int),
            b[1] as int,
            Frac::whole(b[0] as int),
            k,
        ).truncated()
    }
}

/// A line from a point to itself consists of that point alone.
pub proof fn lemma_point_line(p: [u32; 2], x: int, y: int)
    ensures
        on_line(p, p, x, y) <==> (x == p[0] && y == p[1]),
{
    assert(!is_flat(p, p));
    lemma_sample_within(p[1] as int, p[0] as int, p[1] as int, p[0] as int, 0, p[0] as int, p[0] as int);
}

impl Buffer {
    /// Draws the line between `p0` and `p1`: exactly the pixels of
    /// [`on_line`] take the colour, all others keep theirs.
    pub fn draw_line(&mut self, p0: [u32; 2], p1: [u32; 2], col: [u8; 3])
        requires
            old(self).wf(),
            old(self).contains(p0[0] as int, p0[1] as int),
            old(self).contains(p1[0] as int, p1[1] as int),
        ensures
            final(self).wf(),
            final(self).same_frame(old(self)),
            forall|x: int, y: int|
                final(self).contains(x, y) ==> #[trigger] final(self).pixel(x, y) == (if on_line(
                    p0,
                    p1,
                    x,
                    y,
                ) {
                    opaque(col)
                } else {
                    old(self).pixel(x, y)
                }),
    {
        let dx: u32 = if p0[0] > p1[0] { p0[0] - p1[0] } else { p1[0] - p0[0] };
        let dy: u32 = if p0[1] > p1[1] { p0[1] - p1[1] } else { p1[1] - p0[1] };
        if dx > dy {
            let a = if p0[0] > p1[0] { p1 } else { p0 };
            let b = if p0[0] > p1[0] { p0 } else { p1 };
            let ys = interpolate(a[0], Ratio::from_int(a[1]), b[0], Ratio::from_int(b[1]));
            let mut k: usize = 0;
            while k < ys.len()
                invariant
                    k <= ys.len(),
                    self.wf(),
                    self.same_frame(old(self)),
                    is_flat(p0, p1),
                    a == (if p0[0] > p1[0] { p1 } else { p0 }),
                    b == (if p0[0] > p1[0] { p0 } else { p1 }),
                    a[0] < b[0] < self.width,
                    a[1] < self.height,
                    b[1] < self.height,
                    ys@.len() == interp_len(a[0] as int, b[0] as int),
                    forall|j: int| 0 <= j < ys@.len() ==> (#[trigger] ys@[j])@ == interp_sample(
                        a[0] as int,
                        Frac::whole(a[1] as int),
                        b[0] as int,
                        Frac::whole(b[1] as int),
                        j,
                    ),
                    forall|x: int, y: int|
                        self.contains(x, y) ==> #[trigger] self.pixel(x, y) == (if on_line(p0, p1, x, y)
                            && x - a[0] < k {
                            opaque(col)
                        } else {
                            old(self).pixel(x, y)
                        }),
                decreases ys.len() - k,
            {
                proof {
                    let lo = if a[1] < b[1] { a[1] as int } else { b[1] as int };
                    let hi = if a[1] < b[1] { b[1] as int } else { a[1] as int };
                    lemma_sample_within(a[0] as int, a[1] as int, b[0] as int, b[1] as int, k as int, lo, hi);
                }
                let y: u32 = ys[k].to_u32();
                self.put_pixel(a[0] + k as u32, y, col);
                k = k + 1;
            }
        } else {
            let a = if p0[1] > p1[1] { p1 } else { p0 };
            let b = if p0[1] > p1[1] { p0 } else { p1 };
            let xs = interpolate(a[1], Ratio::from_int(a[0]), b[1], Ratio::from_int(b[0]));
            let mut k: usize = 0;
            while k < xs.len()
                invariant
                    k <= xs.len(),
                    self.wf(),
                    self.same_frame(old(self)),
                    !is_flat(p0, p1),
                    a == (if p0[1] > p1[1] { p1 } else { p0 }),
                    b == (if p0[1] > p1[1] { p0 } else { p1 }),
                    a[1] <= b[1] < self.height,
                    a[0] < self.width,
                    b[0] < self.width,
                    xs@.len() == interp_len(a[1] as int, b[1] as int),
                    forall|j: int| 0 <= j < xs@.len() ==> (#[trigger] xs@[j])@ == interp_sample(
                        a[1] as int,
                        Frac::whole(a[0] as int),
                        b[1] as int,
                        Frac::whole(b[0] as int),
                        j,
                    ),
                    forall|x: int, y: int|
                        self.contains(x, y) ==> #[trigger] self.pixel(x, y) == (if on_line(p0, p1, x, y)
                            && y - a[1] < k {
                            opaque(col)
                        } else {
                            old(self).pixel(x, y)
                        }),
                decreases xs.len() - k,
            {
                proof {
                    let lo = if a[0] < b[0] { a[0] as int } else { b[0] as int };
                    let hi = if a[0] < b[0] { b[0] as int } else { a[0] as int };
                    lemma_sample_within(a[1] as int, a[0] as int, b[1] as int, b[0] as int, k as int, lo, hi);
                }
                let x: u32 = xs[k].to_u32();
                self.put_pixel(x, a[1] + k as u32, col);
                k = k + 1;
            }
        }
    }

    /// Draws the outline of a triangle: the three lines from `p0` to `p1`,
    /// from `p1` to `p2` and from `p2` back to `p0`, and nothing else.
    pub fn draw_wire_tri(&mut self, p0: [u32; 2], p1: [u32; 2], p2: [u32; 2], col: [u8; 3])
        requires
            old(self).wf(),
            old(self).contains(p0[0] as int, p0[1] as int),
            old(self).contains(p1[0] as int, p1[1] as int),
            old(self).contains(p2[0] as int, p2[1] as int),
        ensures
            final(self).wf(),
            final(self).same_frame(old(self)),
            forall|x: int, y: int|
                final(self).contains(x, y) ==> #[trigger] final(self).pixel(x, y) == (if on_line(
                    p0,
                    p1,
                    x,
                    y,
                ) || on_line(p1, p2, x, y) || on_line(p2, p0, x, y) {
                    opaque(col)
                } else {
                    old(self).pixel(x, y)
                }),
    {
        self.draw_line(p0, p1, col);
        self.draw_line(p1, p2, col);
        self.draw_line(p2, p0, col);
    }
}

} // verus!
