//! Filled and shaded triangles, drawn scanline by scanline between two
//! interpolated edges.
use vstd::prelude::*;
use crate::buffer::{opaque, Buffer};
use crate::interpolate::{
    fracs, interp_len, interp_sample, interp_series, interpolate, lemma_sample_scalable,
    lemma_sample_within,
};
use crate::ratio::{lemma_product_bound, Frac, Ratio, MAX_DEN};

verus! {

/// The three vertices in ascending order of their rows, as three exchanges
/// arrange them: the first with the second, then the first with the third,
/// then the second with the third.
pub open spec fn sorted_by_row(p0: [u32; 2], p1: [u32; 2], p2: [u32; 2]) -> (
    [u32; 2],
    [u32; 2],
    [u32; 2],
) {
    let a0 = if p1[1] < p0[1] { p1 } else { p0 };
    let a1 = if p1[1] < p0[1] { p0 } else { p1 };
    let b0 = if p2[1] < a0[1] { p2 } else { a0 };
    let b2 = if p2[1] < a0[1] { a0 } else { p2 };
    let c1 = if b2[1] < a1[1] { b2 } else { a1 };
    let c2 = if b2[1] < a1[1] { a1 } else { b2 };
    (b0, c1, c2)
}

/// The series that follows the two short sides of a triangle whose corners
/// have the values `d0`, `d1`, `d2` in the rows `y0 <= y1 <= y2`: the samples
/// from the first corner to the second without the last of them, followed by
/// the samples from the second corner to the third.
pub open spec fn short_series(y0: int, d0: Frac, y1: int, d1: Frac, y2: int, d2: Frac) -> Seq<Frac> {
    interp_series(y0, d0, y1, d1).drop_last() + interp_series(y1, d1, y2, d2)
}

/// The series that follows the long side, from the first corner to the third.
pub open spec fn long_series(y0: int, d0: Frac, y2: int, d2: Frac) -> Seq<Frac> {
    interp_series(y0, d0, y2, d2)
}

/// Columns along the two short sides of the sorted triangle `v0`, `v1`, `v2`.
pub open spec fn short_columns(v0: [u32; 2], v1: [u32; 2], v2: [u32; 2]) -> Seq<Frac> {
    short_series(
        v0[1] as int,
        Frac::whole(v0[0] as int),
        v1[1] as int,
        Frac::whole(v1[0] as int),
        v2[1] as int,
        Frac::whole(v2[0] as int),
    )
}

/// Columns along the long side of the sorted triangle `v0`, `v1`, `v2`.
pub open spec fn long_columns(v0: [u32; 2], v2: [u32; 2]) -> Seq<Frac> {
    long_series(v0[1] as int, Frac::whole(v0[0] as int), v2[1] as int, Frac::whole(v2[0] as int))
}

/// Whether the long side is the left boundary of the triangle. One
/// comparison decides it for every row: that of the two series at the middle
/// row of the short one.
pub open spec fn long_side_is_left(v0: [u32; 2], v1: [u32; 2], v2: [u32; 2]) -> bool {
    let m = (short_columns(v0, v1, v2).len() / 2) as int;
    long_columns(v0, v2)[m].less_than(short_columns(v0, v1, v2)[m])
}

/// First column of the filled span in the row `v0[1] + k`.
pub open spec fn span_start(v0: [u32; 2], v1: [u32; 2], v2: [u32; 2], k: int) -> int {
    if long_side_is_left(v0, v1, v2) {
        long_columns(v0, v2)[k].truncated()
    } else {
        short_columns(v0, v1, v2)[k].truncated()
    }
}

/// Column just past the filled span in the row `v0[1] + k`.
pub open spec fn span_end(v0: [u32; 2], v1: [u32; 2], v2: [u32; 2], k: int) -> int {
    if long_side_is_left(v0, v1, v2) {
        short_columns(v0, v1, v2)[k].truncated()
    } else {
        long_columns(v0, v2)[k].truncated()
    }
}

/// Whether filling the triangle `p0`, `p1`, `p2` paints the pixel `(x, y)`.
///
/// With the vertices sorted by row into `v0`, `v1`, `v2`, the rows from
/// `v0[1]` up to, but not including, `v2[1] - 1` are filled, each from its
/// span's start up to, but not including, its end. A triangle whose three
/// vertices lie in one row paints nothing.
pub open spec fn in_filled_tri(p0: [u32; 2], p1: [u32; 2], p2: [u32; 2], x: int, y: int) -> bool {
    let (v0, v1, v2) = sorted_by_row(p0, p1, p2);
    let k = y - v0[1];
    &&& v0[1] < v2[1]
    &&& v0[1] <= y < v2[1] - 1
    &&& span_start(v0, v1, v2, k) <= x < span_end(v0, v1, v2, k)
}

/// Intensity of full brightness: a vertex of this level keeps its colour,
/// one of level zero is black.
pub const FULL: u8 = 255;

/// The intensity levels of the three vertices, in the order in which
/// [`sorted_by_row`] puts the vertices that carry them.
pub open spec fn sorted_levels(p0: [u32; 2], p1: [u32; 2], p2: [u32; 2], h: [u8; 3]) -> (u8, u8, u8) {
    let a0 = if p1[1] < p0[1] { p1 } else { p0 };
    let g0 = if p1[1] < p0[1] { h[1] } else { h[0] };
    let a1 = if p1[1] < p0[1] { p0 } else { p1 };
    let g1 = if p1[1] < p0[1] { h[0] } else { h[1] };
    let b2 = if p2[1] < a0[1] { a0 } else { p2 };
    let i0 = if p2[1] < a0[1] { h[2] } else { g0 };
    let i2 = if p2[1] < a0[1] { g0 } else { h[2] };
    let j1 = if b2[1] < a1[1] { i2 } else { g1 };
    let j2 = if b2[1] < a1[1] { g1 } else { i2 };
    (i0, j1, j2)
}

/// Intensity levels along the two short sides of a sorted triangle whose
/// vertices carry the levels `g`.
pub open spec fn short_levels(v0: [u32; 2], v1: [u32; 2], v2: [u32; 2], g: (u8, u8, u8)) -> Seq<Frac> {
    short_series(
        v0[1] as int,
        Frac::whole(g.0 as int),
        v1[1] as int,
        Frac::whole(g.1 as int),
        v2[1] as int,
        Frac::whole(g.2 as int),
    )
}

/// Intensity levels along the long side of a sorted triangle whose vertices
/// carry the levels `g`.
pub open spec fn long_levels(v0: [u32; 2], v2: [u32; 2], g: (u8, u8, u8)) -> Seq<Frac> {
    long_series(v0[1] as int, Frac::whole(g.0 as int), v2[1] as int, Frac::whole(g.2 as int))
}

/// The intensity level at the pixel `(x, y)` of the shaded triangle `p0`,
/// `p1`, `p2` whose vertices carry the levels `h`: the levels are
/// interpolated along the edges row by row, and within a row between the
/// levels at the two ends of its span.
pub open spec fn level_at(p0: [u32; 2], p1: [u32; 2], p2: [u32; 2], h: [u8; 3], x: int, y: int) -> Frac {
    let (v0, v1, v2) = sorted_by_row(p0, p1, p2);
    let g = sorted_levels(p0, p1, p2, h);
    let k = y - v0[1];
    let left = if long_side_is_left(v0, v1, v2) {
        long_levels(v0, v2, g)[k]
    } else {
        short_levels(v0, v1, v2, g)[k]
    };
    let right = if long_side_is_left(v0, v1, v2) {
        short_levels(v0, v1, v2, g)[k]
    } else {
        long_levels(v0, v2, g)[k]
    };
    let start = span_start(v0, v1, v2, k);
    interp_sample(start, left, span_end(v0, v1, v2, k), right, x - start)
}

/// The colour `col` as stored at the intensity level `level`.
pub open spec fn shaded(col: [u8; 3], level: Frac) -> crate::buffer::Rgba {
    (level.shade(col[0], FULL), level.shade(col[1], FULL), level.shade(col[2], FULL), 0xffu8)
}

/// The rows of a sorted triangle of positive height index both of its edge
/// series, and so does the middle row used to tell left from right.
pub proof fn lemma_series_lengths(y0: int, d0: Frac, y1: int, d1: Frac, y2: int, d2: Frac)
    requires
        y0 <= y1 <= y2,
        y0 < y2,
    ensures
        long_series(y0, d0, y2, d2).len() == y2 - y0,
        y2 - y0 - 1 <= short_series(y0, d0, y1, d1, y2, d2).len() <= y2 - y0,
        1 <= short_series(y0, d0, y1, d1, y2, d2).len(),
{
}

/// Every sample of the short series is a sample of one of the two short
/// sides.
pub proof fn lemma_short_sample(y0: int, d0: Frac, y1: int, d1: Frac, y2: int, d2: Frac, k: int)
    requires
        y0 <= y1 <= y2,
        0 <= k < short_series(y0, d0, y1, d1, y2, d2).len(),
    ensures
        short_series(y0, d0, y1, d1, y2, d2)[k] == (if k < interp_len(y0, y1) - 1 {
            interp_sample(y0, d0, y1, d1, k)
        } else {
            interp_sample(y1, d1, y2, d2, k - (interp_len(y0, y1) - 1))
        }),
        k >= interp_len(y0, y1) - 1 ==> 0 <= k - (interp_len(y0, y1) - 1) < interp_len(y1, y2),
{
}

/// Along the edges of a triangle that lies inside a buffer `width` wide,
/// every column is a proper fraction that can be compared, and truncates to
/// a column of the buffer.
pub proof fn lemma_columns_inside(v0: [u32; 2], v1: [u32; 2], v2: [u32; 2], width: int, k: int)
    requires
        v0[1] <= v1[1] <= v2[1],
        v0[1] < v2[1],
        v0[0] < width,
        v1[0] < width,
        v2[0] < width,
        width <= u32::MAX,
        0 <= k,
    ensures
        k < long_columns(v0, v2).len() ==> long_columns(v0, v2)[k].comparable() && long_columns(
            v0,
            v2,
        )[k].truncated() < width,
        k < short_columns(v0, v1, v2).len() ==> short_columns(v0, v1, v2)[k].comparable()
            && short_columns(v0, v1, v2)[k].truncated() < width,
{
    let hi = width - 1;
    if k < long_columns(v0, v2).len() {
        lemma_sample_within(v0[1] as int, v0[0] as int, v2[1] as int, v2[0] as int, k, 0, hi);
        lemma_product_bound(hi, interp_len(v0[1] as int, v2[1] as int) as int, MAX_DEN as int, MAX_DEN as int);
    }
    if k < short_columns(v0, v1, v2).len() {
        lemma_short_sample(
            v0[1] as int,
            Frac::whole(v0[0] as int),
            v1[1] as int,
            Frac::whole(v1[0] as int),
            v2[1] as int,
            Frac::whole(v2[0] as int),
            k,
        );
        let n01 = interp_len(v0[1] as int, v1[1] as int) as int;
        if k < n01 - 1 {
            lemma_sample_within(v0[1] as int, v0[0] as int, v1[1] as int, v1[0] as int, k, 0, hi);
            lemma_product_bound(hi, n01, MAX_DEN as int, MAX_DEN as int);
        } else {
            let j = k - (n01 - 1);
            lemma_sample_within(v1[1] as int, v1[0] as int, v2[1] as int, v2[0] as int, j, 0, hi);
            lemma_product_bound(hi, interp_len(v1[1] as int, v2[1] as int) as int, MAX_DEN as int, MAX_DEN as int);
        }
    }
}

/// Along the edges of a sorted triangle every intensity level is a bounded
/// fraction, fit to be interpolated further.
pub proof fn lemma_levels_bounded(v0: [u32; 2], v1: [u32; 2], v2: [u32; 2], g: (u8, u8, u8), k: int)
    requires
        v0[1] <= v1[1] <= v2[1],
        v0[1] < v2[1],
        0 <= k,
    ensures
        k < long_levels(v0, v2, g).len() ==> long_levels(v0, v2, g)[k].bounded(),
        k < short_levels(v0, v1, v2, g).len() ==> short_levels(v0, v1, v2, g)[k].bounded(),
{
    let hi = FULL as int;
    if k < long_levels(v0, v2, g).len() {
        lemma_sample_within(v0[1] as int, g.0 as int, v2[1] as int, g.2 as int, k, 0, hi);
        lemma_product_bound(hi, interp_len(v0[1] as int, v2[1] as int) as int, hi, MAX_DEN as int);
    }
    if k < short_levels(v0, v1, v2, g).len() {
        lemma_short_sample(
            v0[1] as int,
            Frac::whole(g.0 as int),
            v1[1] as int,
            Frac::whole(g.1 as int),
            v2[1] as int,
            Frac::whole(g.2 as int),
            k,
        );
        let n01 = interp_len(v0[1] as int, v1[1] as int) as int;
        if k < n01 - 1 {
            lemma_sample_within(v0[1] as int, g.0 as int, v1[1] as int, g.1 as int, k, 0, hi);
            lemma_product_bound(hi, n01, hi, MAX_DEN as int);
        } else {
            let j = k - (n01 - 1);
            lemma_sample_within(v1[1] as int, g.1 as int, v2[1] as int, g.2 as int, j, 0, hi);
            lemma_product_bound(hi, interp_len(v1[1] as int, v2[1] as int) as int, hi, MAX_DEN as int);
        }
    }
}

/// Interpolates the corner values `d0`, `d1`, `d2` of a sorted triangle along
/// its sides: first the series of the two short sides, then that of the long
/// side.
pub fn edge_series(y0: u32, d0: Ratio, y1: u32, d1: Ratio, y2: u32, d2: Ratio) -> (edges: (
    Vec<Ratio>,
    Vec<Ratio>,
))
    requires
        y0 <= y1 <= y2,
        d0@.bounded(),
        d1@.bounded(),
        d2@.bounded(),
    ensures
        fracs(edges.0@) == short_series(y0 as int, d0@, y1 as int, d1@, y2 as int, d2@),
        fracs(edges.1@) == long_series(y0 as int, d0@, y2 as int, d2@),
{
    let mut short = interpolate(y0, d0, y1, d1);
    let mut rest = interpolate(y1, d1, y2, d2);
    let long = interpolate(y0, d0, y2, d2);
    let ghost first = short@;
    let ghost second = rest@;
    short.pop();
    short.append(&mut rest);
    proof {
        assert(short@ == first.drop_last() + second);
        assert(fracs(short@) =~= fracs(first).drop_last() + fracs(second));
    }
    (short, long)
}

impl Buffer {
    /// Fills the triangle `p0`, `p1`, `p2`: exactly the pixels of
    /// [`in_filled_tri`] take the colour, all others keep theirs.
    pub fn draw_filled_tri(&mut self, p0: [u32; 2], p1: [u32; 2], p2: [u32; 2], col: [u8; 3])
        requires
            old(self).wf(),
            old(self).contains(p0[0] as int, p0[1] as int),
            old(self).contains(p1[0] as int, p1[1] as int),
            old(self).contains(p2[0] as int, p2[1] as int),
        ensures
            final(self).wf(),
            final(self).same_frame(old(self)),
            forall|x: int, y: int|
                final(self).contains(x, y) ==> #[trigger] final(self).pixel(x, y) == (if in_filled_tri(
                    p0,
                    p1,
                    p2,
                    x,
                    y,
                ) {
                    opaque(col)
                } else {
                    old(self).pixel(x, y)
                }),
    {
        let mut v0 = p0;
        let mut v1 = p1;
        let mut v2 = p2;
        if v1[1] < v0[1] {
            let t = v0;
            v0 = v1;
            v1 = t;
        }
        if v2[1] < v0[1] {
            let t = v0;
            v0 = v2;
            v2 = t;
        }
        if v2[1] < v1[1] {
            let t = v1;
            v1 = v2;
            v2 = t;
        }
        assert((v0, v1, v2) == sorted_by_row(p0, p1, p2));
        if v0[1] == v2[1] {
            return;
        }
        let (short, long) = edge_series(
            v0[1],
            Ratio::from_int(v0[0]),
            v1[1],
            Ratio::from_int(v1[0]),
            v2[1],
            Ratio::from_int(v2[0]),
        );
        proof {
            lemma_series_lengths(
                v0[1] as int,
                Frac::whole(v0[0] as int),
                v1[1] as int,
                Frac::whole(v1[0] as int),
                v2[1] as int,
                Frac::whole(v2[0] as int),
            );
            assert(fracs(short@).len() == short@.len());
            assert(fracs(long@).len() == long@.len());
        }
        let m: usize = short.len() / 2;
        proof {
            lemma_columns_inside(v0, v1, v2, self.width as int, m as int);
            assert(fracs(short@)[m as int] == short@[m as int]@);
            assert(fracs(long@)[m as int] == long@[m as int]@);
        }
        let long_left: bool = long[m].lt(&short[m]);
        assert(long_left == long_side_is_left(v0, v1, v2));
        let rows: u32 = v2[1] - 1 - v0[1];
        let mut k: u32 = 0;
        while k < rows
            invariant
                k <= rows,
                rows == v2[1] - 1 - v0[1],
                self.wf(),
                self.same_frame(old(self)),
                (v0, v1, v2) == sorted_by_row(p0, p1, p2),
                v0[1] <= v1[1] <= v2[1],
                v0[1] < v2[1] < self.height,
                v0[0] < self.width,
                v1[0] < self.width,
                v2[0] < self.width,
                fracs(short@) == short_columns(v0, v1, v2),
                fracs(long@) == long_columns(v0, v2),
                rows <= short@.len(),
                rows < long@.len(),
                long_left == long_side_is_left(v0, v1, v2),
                forall|x: int, y: int|
                    self.contains(x, y) ==> #[trigger] self.pixel(x, y) == (if in_filled_tri(
                        p0,
                        p1,
                        p2,
                        x,
                        y,
                    ) && y - v0[1] < k {
                        opaque(col)
                    } else {
                        old(self).pixel(x, y)
                    }),
            decreases rows - k,
        {
            proof {
                lemma_columns_inside(v0, v1, v2, self.width as int, k as int);
                assert(fracs(short@)[k as int] == short@[k as int]@);
                assert(fracs(long@)[k as int] == long@[k as int]@);
            }
            let start: u32 = if long_left { long[k as usize].to_u32() } else { short[k as usize].to_u32() };
            let end: u32 = if long_left { short[k as usize].to_u32() } else { long[k as usize].to_u32() };
            assert(start == span_start(v0, v1, v2, k as int));
            assert(end == span_end(v0, v1, v2, k as int));
            let y: u32 = v0[1] + k;
            let mut x: u32 = start;
            while x < end
                invariant
                    start <= x,
                    end < self.width,
                    y == v0[1] + k,
                    y < self.height,
                    k < rows,
                    rows == v2[1] - 1 - v0[1],
                    self.wf(),
                    self.same_frame(old(self)),
                    (v0, v1, v2) == sorted_by_row(p0, p1, p2),
                    v0[1] < v2[1],
                    start == span_start(v0, v1, v2, k as int),
                    end == span_end(v0, v1, v2, k as int),
                    forall|x2: int, y2: int|
                        self.contains(x2, y2) ==> #[trigger] self.pixel(x2, y2) == (if in_filled_tri(
                            p0,
                            p1,
                            p2,
                            x2,
                            y2,
                        ) && (y2 - v0[1] < k || (y2 == y && x2 < x)) {
                            opaque(col)
                        } else {
                            old(self).pixel(x2, y2)
                        }),
                decreases end - x,
            {
                self.put_pixel(x, y, col);
                x = x + 1;
            }
            k = k + 1;
        }
    }

    /// Fills the triangle `p0`, `p1`, `p2` with the colour `col` shaded by
    /// the intensity levels `h` that the three vertices carry, `FULL` being
    /// the colour itself: the pixels of [`in_filled_tri`] take the colour at
    /// the level interpolated for them, all others keep theirs.
    pub fn draw_gradient_tri(
        &mut self,
        p0: [u32; 2],
        p1: [u32; 2],
        p2: [u32; 2],
        col: [u8; 3],
        h: [u8; 3],
    )
        requires
            old(self).wf(),
            old(self).contains(p0[0] as int, p0[1] as int),
            old(self).contains(p1[0] as int, p1[1] as int),
            old(self).contains(p2[0] as int, p2[1] as int),
        ensures
            final(self).wf(),
            final(self).same_frame(old(self)),
            forall|x: int, y: int|
                final(self).contains(x, y) ==> #[trigger] final(self).pixel(x, y) == (if in_filled_tri(
                    p0,
                    p1,
                    p2,
                    x,
                    y,
                ) {
                    shaded(col, level_at(p0, p1, p2, h, x, y))
                } else {
                    old(self).pixel(x, y)
                }),
    {
        let mut v0 = p0;
        let mut v1 = p1;
        let mut v2 = p2;
        let mut g0 = h[0];
        let mut g1 = h[1];
        let mut g2 = h[2];
        if v1[1] < v0[1] {
            let t = v0;
            v0 = v1;
            v1 = t;
            let u = g0;
            g0 = g1;
            g1 = u;
        }
        if v2[1] < v0[1] {
            let t = v0;
            v0 = v2;
            v2 = t;
            let u = g0;
            g0 = g2;
            g2 = u;
        }
        if v2[1] < v1[1] {
            let t = v1;
            v1 = v2;
            v2 = t;
            let u = g1;
            g1 = g2;
            g2 = u;
        }
        let ghost g = (g0, g1, g2);
        assert((v0, v1, v2) == sorted_by_row(p0, p1, p2));
        assert(g == sorted_levels(p0, p1, p2, h));
        if v0[1] == v2[1] {
            return;
        }
        let (short, long) = edge_series(
            v0[1],
            Ratio::from_int(v0[0]),
            v1[1],
            Ratio::from_int(v1[0]),
            v2[1],
            Ratio::from_int(v2[0]),
        );
        let (short_h, long_h) = edge_series(
            v0[1],
            Ratio::from_int(g0 as u32),
            v1[1],
            Ratio::from_int(g1 as u32),
            v2[1],
            Ratio::from_int(g2 as u32),
        );
        proof {
            lemma_series_lengths(
                v0[1] as int,
                Frac::whole(v0[0] as int),
                v1[1] as int,
                Frac::whole(v1[0] as int),
                v2[1] as int,
                Frac::whole(v2[0] as int),
            );
            lemma_series_lengths(
                v0[1] as int,
                Frac::whole(g0 as int),
                v1[1] as int,
                Frac::whole(g1 as int),
                v2[1] as int,
                Frac::whole(g2 as int),
            );
            assert(fracs(short@).len() == short@.len());
            assert(fracs(long@).len() == long@.len());
            assert(fracs(short_h@).len() == short_h@.len());
            assert(fracs(long_h@).len() == long_h@.len());
        }
        let m: usize = short.len() / 2;
        proof {
            lemma_columns_inside(v0, v1, v2, self.width as int, m as int);
            assert(fracs(short@)[m as int] == short@[m as int]@);
            assert(fracs(long@)[m as int] == long@[m as int]@);
        }
        let long_left: bool = long[m].lt(&short[m]);
        assert(long_left == long_side_is_left(v0, v1, v2));
        let rows: u32 = v2[1] - 1 - v0[1];
        let mut k: u32 = 0;
        while k < rows
            invariant
                k <= rows,
                rows == v2[1] - 1 - v0[1],
                self.wf(),
                self.same_frame(old(self)),
                (v0, v1, v2) == sorted_by_row(p0, p1, p2),
                g == sorted_levels(p0, p1, p2, h),
                v0[1] <= v1[1] <= v2[1],
                v0[1] < v2[1] < self.height,
                v0[0] < self.width,
                v1[0] < self.width,
                v2[0] < self.width,
                fracs(short@) == short_columns(v0, v1, v2),
                fracs(long@) == long_columns(v0, v2),
                fracs(short_h@) == short_levels(v0, v1, v2, g),
                fracs(long_h@) == long_levels(v0, v2, g),
                rows <= short@.len(),
                rows < long@.len(),
                short_h@.len() == short@.len(),
                long_h@.len() == long@.len(),
                long_left == long_side_is_left(v0, v1, v2),
                forall|x: int, y: int|
                    self.contains(x, y) ==> #[trigger] self.pixel(x, y) == (if in_filled_tri(
                        p0,
                        p1,
                        p2,
                        x,
                        y,
                    ) && y - v0[1] < k {
                        shaded(col, level_at(p0, p1, p2, h, x, y))
                    } else {
                        old(self).pixel(x, y)
                    }),
            decreases rows - k,
        {
            proof {
                lemma_columns_inside(v0, v1, v2, self.width as int, k as int);
                lemma_levels_bounded(v0, v1, v2, g, k as int);
                assert(fracs(short@)[k as int] == short@[k as int]@);
                assert(fracs(long@)[k as int] == long@[k as int]@);
                assert(fracs(short_h@)[k as int] == short_h@[k as int]@);
                assert(fracs(long_h@)[k as int] == long_h@[k as int]@);
            }
            let start: u32 = if long_left { long[k as usize].to_u32() } else { short[k as usize].to_u32() };
            let end: u32 = if long_left { short[k as usize].to_u32() } else { long[k as usize].to_u32() };
            let left: Ratio = if long_left { long_h[k as usize] } else { short_h[k as usize] };
            let right: Ratio = if long_left { short_h[k as usize] } else { long_h[k as usize] };
            assert(start == span_start(v0, v1, v2, k as int));
            assert(end == span_end(v0, v1, v2, k as int));
            let levels = interpolate(start, left, end, right);
            let y: u32 = v0[1] + k;
            let mut x: u32 = start;
            while x < end
                invariant
                    start <= x,
                    end < self.width,
                    y == v0[1] + k,
                    y < self.height,
                    k < rows,
                    rows == v2[1] - 1 - v0[1],
                    self.wf(),
                    self.same_frame(old(self)),
                    (v0, v1, v2) == sorted_by_row(p0, p1, p2),
                    g == sorted_levels(p0, p1, p2, h),
                    v0[1] < v2[1],
                    start == span_start(v0, v1, v2, k as int),
                    end == span_end(v0, v1, v2, k as int),
                    left@.bounded(),
                    right@.bounded(),
                    left@ == (if long_side_is_left(v0, v1, v2) {
                        long_levels(v0, v2, g)[k as int]
                    } else {
                        short_levels(v0, v1, v2, g)[k as int]
                    }),
                    right@ == (if long_side_is_left(v0, v1, v2) {
                        short_levels(v0, v1, v2, g)[k as int]
                    } else {
                        long_levels(v0, v2, g)[k as int]
                    }),
                    levels@.len() == interp_len(start as int, end as int),
                    forall|j: int|
                        0 <= j < levels@.len() ==> (#[trigger] levels@[j])@ == interp_sample(
                            start as int,
                            left@,
                            end as int,
                            right@,
                            j,
                        ),
                    forall|x2: int, y2: int|
                        self.contains(x2, y2) ==> #[trigger] self.pixel(x2, y2) == (if in_filled_tri(
                            p0,
                            p1,
                            p2,
                            x2,
                            y2,
                        ) && (y2 - v0[1] < k || (y2 == y && x2 < x)) {
                            shaded(col, level_at(p0, p1, p2, h, x2, y2))
                        } else {
                            old(self).pixel(x2, y2)
                        }),
                decreases end - x,
            {
                proof {
                    lemma_sample_scalable(start as int, left@, end as int, right@, x - start);
                }
                let level: Ratio = levels[(x - start) as usize];
                assert(level@ == level_at(p0, p1, p2, h, x as int, y as int));
                let tone: [u8; 3] = [
                    level.shade(col[0], FULL),
                    level.shade(col[1], FULL),
                    level.shade(col[2], FULL),
                ];
                self.put_pixel(x, y, tone);
                x = x + 1;
            }
            k = k + 1;
        }
    }
}

} // verus!
