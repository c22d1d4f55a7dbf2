//! Plots of sampled functions, one pixel per column.
use vstd::prelude::*;
use crate::buffer::{opaque, Buffer};

verus! {

/// The row in which a plot paints a sample: the sample itself, or the last
/// row of the buffer when the sample lies below it.
pub open spec fn plot_row(sample: u32, height: u32) -> int {
    if sample < height {
        sample as int
    } else {
        height - 1
    }
}

impl Buffer {
    /// Plots a function that has been sampled once per column: `rows[i]` is
    /// the row of the sample for column `i`, counted from the top. A sample
    /// below the buffer is painted in the last row.
    pub fn draw_func(&mut self, rows: &Vec<u32>, col: [u8; 3])
        requires
            old(self).wf(),
            old(self).height > 0,
            rows@.len() == old(self).width,
        ensures
            final(self).wf(),
            final(self).same_frame(old(self)),
            forall|x: int, y: int|
                final(self).contains(x, y) ==> #[trigger] final(self).pixel(x, y) == (if y == plot_row(
                    rows@[x],
                    final(self).height,
                ) {
                    opaque(col)
                } else {
                    old(self).pixel(x, y)
                }),
    {
        let mut i: u32 = 0;
        while i < self.width
            invariant
                i <= self.width,
                self.wf(),
                self.same_frame(old(self)),
                self.height > 0,
                rows@.len() == self.width,
                forall|x: int, y: int|
                    self.contains(x, y) ==> #[trigger] self.pixel(x, y) == (if x < i && y == plot_row(
                        rows@[x],
                        self.height,
                    ) {
                        opaque(col)
                    } else {
                        old(self).pixel(x, y)
                    }),
            decreases self.width - i,
        {
            let sample: u32 = rows[i as usize];
            let row: u32 = if sample < self.height { sample } else { self.height - 1 };
            self.put_pixel(i, row, col);
            i = i + 1;
        }
    }
}

} // verus!
