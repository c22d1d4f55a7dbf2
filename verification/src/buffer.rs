//! The pixel buffer: a row-major array of RGBA pixels with its origin in the
//! top-left corner.
use vstd::prelude::*;
use crate::text::Font;

verus! {

/// Width in pixels of a buffer made by [`Buffer::new`].
pub const WIDTH: u32 = 512;

/// Height in pixels of a buffer made by [`Buffer::new`].
pub const HEIGHT: u32 = 512;

/// A colour as stored in the buffer: red, green, blue and alpha.
pub type Rgba = (u8, u8, u8, u8);

/// The stored form of an opaque colour.
pub open spec fn opaque(col: [u8; 3]) -> Rgba {
    (col[0], col[1], col[2], 0xffu8)
}

/// The byte that an opaque colour puts at index `i` of the backing array.
pub open spec fn channel(col: [u8; 3], i: int) -> u8 {
    if i % 4 == 3 {
        0xffu8
    } else {
        col[i % 4]
    }
}

/// An owned pixel buffer of `width * height` RGBA pixels, four bytes each.
#[derive(Clone, Debug)]
pub struct Buffer {
    /// The pixels, row by row from the top, each as red, green, blue, alpha.
    pub buf: Vec<u8>,
    /// The font that texts are drawn in when no other is given.
    pub defaultfont: Font,
    /// Number of pixels in a row.
    pub width: u32,
    /// Number of rows.
    pub height: u32,
}

impl Buffer {
    /// The backing array holds exactly `width * height` pixels.
    pub open spec fn wf(&self) -> bool {
        self.buf@.len() == 4 * (self.width * self.height)
    }

    /// Whether `(x, y)` names a pixel of the buffer.
    pub open spec fn contains(&self, x: int, y: int) -> bool {
        0 <= x < self.width && 0 <= y < self.height
    }

    /// Index in the backing array of the first byte of pixel `(x, y)`.
    pub open spec fn offset(&self, x: int, y: int) -> int {
        4 * (y * self.width + x)
    }

    /// The colour stored for pixel `(x, y)`.
    pub open spec fn pixel(&self, x: int, y: int) -> Rgba {
        let i = self.offset(x, y);
        (self.buf@[i], self.buf@[i + 1], self.buf@[i + 2], self.buf@[i + 3])
    }

    /// The backing array once pixel `(x, y)` has been written with an opaque
    /// colour.
    pub open spec fn with_pixel(&self, x: int, y: int, col: [u8; 3]) -> Seq<u8> {
        let i = self.offset(x, y);
        self.buf@.update(i, col[0]).update(i + 1, col[1]).update(i + 2, col[2]).update(
            i + 3,
            0xffu8,
        )
    }

    /// Same dimensions and default font as `other`, whatever the pixels hold.
    pub open spec fn same_frame(&self, other: &Buffer) -> bool {
        &&& self.width == other.width
        &&& self.height == other.height
        &&& self.defaultfont == other.defaultfont
    }

    /// The bytes of every pixel lie inside the backing array.
    pub proof fn lemma_offset_in_range(&self, x: int, y: int)
        requires
            self.wf(),
            self.contains(x, y),
        ensures
            0 <= self.offset(x, y),
            self.offset(x, y) + 4 <= self.buf@.len(),
    {
        let w = self.width as int;
        let h = self.height as int;
        assert(0 <= y * w && y * w + w <= h * w) by (nonlinear_arith)
            requires
                0 <= y < h,
                0 <= w,
        ;
        assert(h * w == w * h) by (nonlinear_arith);
    }

    /// Different pixels occupy different bytes.
    pub proof fn lemma_offsets_apart(&self, x1: int, y1: int, x2: int, y2: int)
        requires
            self.contains(x1, y1),
            self.contains(x2, y2),
            x1 != x2 || y1 != y2,
        ensures
            self.offset(x1, y1) + 4 <= self.offset(x2, y2) || self.offset(x2, y2) + 4
                <= self.offset(x1, y1),
    {
        let w = self.width as int;
        if y1 < y2 {
            assert(y1 * w + w <= y2 * w) by (nonlinear_arith)
                requires
                    y1 < y2,
                    0 <= w,
            ;
        } else if y2 < y1 {
            assert(y2 * w + w <= y1 * w) by (nonlinear_arith)
                requires
                    y2 < y1,
                    0 <= w,
            ;
        }
    }

    /// Writing a pixel a second time with the same colour changes nothing.
    pub proof fn lemma_write_twice(&self, written: &Buffer, x: int, y: int, col: [u8; 3])
        requires
            self.wf(),
            self.contains(x, y),
            written.same_frame(self),
            written.buf@ == self.with_pixel(x, y, col),
        ensures
            written.with_pixel(x, y, col) == written.buf@,
    {
        self.lemma_offset_in_range(x, y);
        assert(written.with_pixel(x, y, col) =~= written.buf@);
    }

    /// Wraps a backing array of `WIDTH * HEIGHT` pixels.
    pub fn new(buf: Vec<u8>, defaultfont: Font) -> (b: Buffer)
        requires
            buf@.len() == 4 * (WIDTH * HEIGHT),
        ensures
            b.wf(),
            b.buf == buf,
            b.defaultfont == defaultfont,
            b.width == WIDTH,
            b.height == HEIGHT,
    {
        Buffer { buf, defaultfont, width: WIDTH, height: HEIGHT }
    }

    /// Wraps a backing array of `width * height` pixels.
    pub fn with_size(buf: Vec<u8>, defaultfont: Font, width: u32, height: u32) -> (b: Buffer)
        requires
            buf@.len() == 4 * (width * height),
        ensures
            b.wf(),
            b.buf == buf,
            b.defaultfont == defaultfont,
            b.width == width,
            b.height == height,
    {
        Buffer { buf, defaultfont, width, height }
    }

    /// The backing array, for copying to a display surface.
    pub fn into_vec(&mut self) -> (v: &Vec<u8>)
        ensures
            *v == old(self).buf,
            *final(self) == *old(self),
    {
        &self.buf
    }

    /// The backing array, for writing it in bulk. The buffer is well formed
    /// again once the array has the length it had before.
    pub fn into_vec_mut(&mut self) -> (v: &mut Vec<u8>)
        ensures
            *v == old(self).buf,
            final(self).buf == *final(v),
            final(self).same_frame(old(self)),
    {
        &mut self.buf
    }

    /// Overwrites every pixel with one opaque colour.
    pub fn clear(&mut self, col: [u8; 3])
        requires
            old(self).wf(),
        ensures
            final(self).wf(),
            final(self).same_frame(old(self)),
            forall|i: int| 0 <= i < final(self).buf@.len() ==> final(self).buf@[i] == channel(col, i),
            forall|x: int, y: int|
                final(self).contains(x, y) ==> #[trigger] final(self).pixel(x, y) == opaque(col),
    {
        let len: usize = self.buf.len();
        let mut i: usize = 0;
        while i < len
            invariant
                self.buf@.len() == len,
                self.wf(),
                len % 4 == 0,
                i % 4 == 0,
                i <= len,
                self.same_frame(old(self)),
                forall|j: int| 0 <= j < i ==> self.buf@[j] == channel(col, j),
            decreases len - i,
        {
            self.buf.set(i, col[0]);
            self.buf.set(i + 1, col[1]);
            self.buf.set(i + 2, col[2]);
            self.buf.set(i + 3, 0xff);
            i = i + 4;
        }
        proof {
            assert forall|x: int, y: int| self.contains(x, y) implies #[trigger] self.pixel(x, y)
                == opaque(col) by {
                self.lemma_offset_in_range(x, y);
                let o = self.offset(x, y);
                assert(o % 4 == 0);
                assert(self.buf@[o] == channel(col, o));
                assert(self.buf@[o + 1] == channel(col, o + 1));
                assert(self.buf@[o + 2] == channel(col, o + 2));
                assert(self.buf@[o + 3] == channel(col, o + 3));
            }
        }
    }

    /// Writes one opaque pixel and leaves every other pixel as it was.
    pub fn put_pixel(&mut self, x: u32, y: u32, col: [u8; 3])
        requires
            old(self).wf(),
            x < old(self).width,
            y < old(self).height,
        ensures
            final(self).wf(),
            final(self).same_frame(old(self)),
            final(self).buf@ == old(self).with_pixel(x as int, y as int, col),
            final(self).pixel(x as int, y as int) == opaque(col),
            forall|x2: int, y2: int|
                old(self).contains(x2, y2) && (x2 != x || y2 != y) ==> #[trigger] final(self).pixel(x2, y2)
                    == old(self).pixel(x2, y2),
    {
        // The length of the backing array fits in `usize`, and so does every
        // offset into it.
        let len: usize = self.buf.len();
        proof {
            self.lemma_offset_in_range(x as int, y as int);
            assert(0 <= y * self.width) by (nonlinear_arith);
            assert(self.offset(x as int, y as int) + 4 <= len);
        }
        let index: usize = 4 * (y as usize * self.width as usize + x as usize);
        self.buf.set(index, col[0]);
        self.buf.set(index + 1, col[1]);
        self.buf.set(index + 2, col[2]);
        self.buf.set(index + 3, 0xff);
        proof {
            assert forall|x2: int, y2: int|
                old(self).contains(x2, y2) && (x2 != x || y2 != y) implies #[trigger] self.pixel(x2, y2)
                    == old(self).pixel(x2, y2) by {
                old(self).lemma_offsets_apart(x as int, y as int, x2, y2);
                old(self).lemma_offset_in_range(x2, y2);
            }
        }
    }
}

} // verus!
