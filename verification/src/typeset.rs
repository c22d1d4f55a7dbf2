//! Text: the glyphs of a string, one after the other at a fixed advance.
use vstd::prelude::*;
use vstd::string::*;
use crate::bdf::{decode_glyph, glyph_pixels, pixels_of};
use crate::buffer::{opaque, Buffer};
use crate::text::{code_of, Font, FontError};

verus! {

/// Horizontal distance between the origins of two consecutive glyphs.
pub const ADVANCE: u32 = 6;

/// The lit pixels of the glyph of a character in a font with these lines.
pub open spec fn glyph_of(lines: Seq<Seq<u8>>, c: char) -> Option<Seq<(int, int)>> {
    glyph_pixels(lines, code_of(c))
}

/// Index of the first character at or after `from` for which the font holds
/// no glyph, or the length of the text if there is none.
pub open spec fn first_unshaped(lines: Seq<Seq<u8>>, text: Seq<char>, from: int) -> int
    decreases text.len() - from,
{
    if from >= text.len() {
        text.len() as int
    } else if glyph_of(lines, text[from]) is None {
        from
    } else {
        first_unshaped(lines, text, from + 1)
    }
}

/// Whether `n` numbers a lit pixel of the glyph of the `j`-th character.
pub open spec fn is_lit(lines: Seq<Seq<u8>>, text: Seq<char>, j: int, n: int) -> bool {
    &&& 0 <= j < text.len()
    &&& glyph_of(lines, text[j]) matches Some(g)
    &&& 0 <= n < g.len()
}

/// Where the `n`-th lit pixel of the `j`-th character of a text lands when
/// the text is drawn at `(x, y)`.
pub open spec fn text_pixel(lines: Seq<Seq<u8>>, text: Seq<char>, x: int, y: int, j: int, n: int) -> (
    int,
    int,
) {
    let p = glyph_of(lines, text[j]).unwrap()[n];
    (p.0 + x + ADVANCE * j, p.1 + y)
}

/// Whether `(px, py)` is a pixel of the text drawn at `(x, y)` that comes
/// before the `n`-th lit pixel of the `j`-th character.
pub open spec fn painted_before(
    lines: Seq<Seq<u8>>,
    text: Seq<char>,
    x: int,
    y: int,
    j: int,
    n: int,
    px: int,
    py: int,
) -> bool {
    exists|j2: int, n2: int|
        is_lit(lines, text, j2, n2) && (j2 < j || (j2 == j && n2 < n)) && #[trigger] text_pixel(
            lines,
            text,
            x,
            y,
            j2,
            n2,
        ) == (px, py)
}

/// Whether drawing a text at `(x, y)` paints the pixel `(px, py)`: it is a
/// lit pixel of a character that stands before the first one without a
/// glyph.
pub open spec fn in_text(lines: Seq<Seq<u8>>, text: Seq<char>, x: int, y: int, px: int, py: int) -> bool {
    painted_before(lines, text, x, y, first_unshaped(lines, text, 0), 0, px, py)
}

/// Whether every pixel that drawing a text at `(x, y)` paints lies inside
/// the buffer.
pub open spec fn text_inside(buffer: &Buffer, lines: Seq<Seq<u8>>, text: Seq<char>, x: int, y: int) -> bool {
    forall|j: int, n: int|
        is_lit(lines, text, j, n) && j < first_unshaped(lines, text, 0) ==> buffer.contains(
            (#[trigger] text_pixel(lines, text, x, y, j, n)).0,
            text_pixel(lines, text, x, y, j, n).1,
        )
}

/// A search for a character without a glyph that starts past a stretch of
/// characters with glyphs finds what a search from the start finds.
pub proof fn lemma_first_unshaped_skip(lines: Seq<Seq<u8>>, text: Seq<char>, from: int, to: int)
    requires
        0 <= from <= to <= text.len(),
        forall|i: int| from <= i < to ==> glyph_of(lines, #[trigger] text[i]) is Some,
    ensures
        first_unshaped(lines, text, from) == first_unshaped(lines, text, to),
        to <= first_unshaped(lines, text, to) <= text.len(),
    decreases to - from,
{
    if from < to {
        lemma_first_unshaped_skip(lines, text, from + 1, to);
    } else {
        lemma_first_unshaped_bounds(lines, text, to);
    }
}

/// What the search finds lies between its start and the end of the text.
pub proof fn lemma_first_unshaped_bounds(lines: Seq<Seq<u8>>, text: Seq<char>, from: int)
    requires
        0 <= from <= text.len(),
    ensures
        from <= first_unshaped(lines, text, from) <= text.len(),
    decreases text.len() - from,
{
    if from < text.len() && glyph_of(lines, text[from]) is Some {
        lemma_first_unshaped_bounds(lines, text, from + 1);
    }
}

impl Buffer {
    /// Whether every pixel of a text drawn at `(x, y)` lies inside the
    /// buffer, so that the text can be drawn there.
    pub fn text_fits(&self, text: &str, font: &Font, x: u32, y: u32) -> (fits: bool)
        ensures
            fits == text_inside(self, font.lines(), text@, x as int, y as int),
    {
        let ghost lines = font.lines();
        let mut j: usize = 0;
        let count: usize = text.unicode_len();
        for c in iter: text.chars()
            invariant
                iter.seq() == text@,
                count == text@.len(),
                j == iter.index(),
                lines == font.lines(),
                forall|i: int| 0 <= i < j ==> glyph_of(lines, #[trigger] text@[i]) is Some,
                forall|j2: int, n2: int|
                    is_lit(lines, text@, j2, n2) && j2 < j ==> self.contains(
                        (#[trigger] text_pixel(lines, text@, x as int, y as int, j2, n2)).0,
                        text_pixel(lines, text@, x as int, y as int, j2, n2).1,
                    ),
        {
            proof {
                lemma_first_unshaped_skip(lines, text@, 0, j as int);
            }
            let glyph = match decode_glyph(&font.sourcefile, (c as u32 % 256) as u8) {
                Some(g) => g,
                None => {
                    return true;
                },
            };
            proof {
                lemma_first_unshaped_bounds(lines, text@, j + 1);
            }
            let mut n: usize = 0;
            while n < glyph.len()
                invariant
                    n <= glyph.len(),
                    j < text@.len(),
                    lines == font.lines(),
                    glyph_of(lines, text@[j as int]) == Some(pixels_of(glyph@)),
                    j < first_unshaped(lines, text@, 0),
                    forall|j2: int, n2: int|
                        is_lit(lines, text@, j2, n2) && (j2 < j || (j2 == j && n2 < n)) ==> self.contains(
                            (#[trigger] text_pixel(lines, text@, x as int, y as int, j2, n2)).0,
                            text_pixel(lines, text@, x as int, y as int, j2, n2).1,
                        ),
                decreases glyph.len() - n,
            {
                let px: u64 = glyph[n][0] as u64 + x as u64;
                let py: u64 = glyph[n][1] as u64 + y as u64;
                let ghost here = text_pixel(lines, text@, x as int, y as int, j as int, n as int);
                assert(is_lit(lines, text@, j as int, n as int));
                assert(here == (px + ADVANCE * j, py as int));
                if py >= self.height as u64 || px >= self.width as u64 || j as u64 >= (self.width as u64
                    - px + 5) / 6 {
                    assert(!self.contains(here.0, here.1));
                    return false;
                }
                n = n + 1;
            }
            j = j + 1;
        }
        proof {
            lemma_first_unshaped_skip(lines, text@, 0, j as int);
        }
        true
    }

    /// Draws a text with its first glyph's origin at `(x, y)` and each
    /// further glyph `ADVANCE` pixels to the right of the one before.
    ///
    /// The characters are drawn in order up to the first one for which the
    /// font holds no glyph; that character makes the result `NotFound`.
    pub fn draw_text(&mut self, text: &str, font: Font, x: u32, y: u32, col: [u8; 3]) -> (result: Result<
        (),
        FontError,
    >)
        requires
            old(self).wf(),
            font.wf(),
            text_inside(old(self), font.lines(), text@, x as int, y as int),
        ensures
            final(self).wf(),
            final(self).same_frame(old(self)),
            result is Ok <==> first_unshaped(font.lines(), text@, 0) == text@.len(),
            result matches Err(e) ==> e == FontError::NotFound,
            forall|px: int, py: int|
                final(self).contains(px, py) ==> #[trigger] final(self).pixel(px, py) == (if in_text(
                    font.lines(),
                    text@,
                    x as int,
                    y as int,
                    px,
                    py,
                ) {
                    opaque(col)
                } else {
                    old(self).pixel(px, py)
                }),
    {
        let ghost lines = font.lines();
        let mut shaper = font;
        let mut j: usize = 0;
        let count: usize = text.unicode_len();
        for c in iter: text.chars()
            invariant
                iter.seq() == text@,
                count == text@.len(),
                j == iter.index(),
                shaper.wf(),
                lines == shaper.lines(),
                lines == font.lines(),
                self.wf(),
                self.same_frame(old(self)),
                text_inside(old(self), lines, text@, x as int, y as int),
                forall|i: int| 0 <= i < j ==> glyph_of(lines, #[trigger] text@[i]) is Some,
                forall|px: int, py: int|
                    self.contains(px, py) ==> #[trigger] self.pixel(px, py) == (if painted_before(
                        lines,
                        text@,
                        x as int,
                        y as int,
                        j as int,
                        0,
                        px,
                        py,
                    ) {
                        opaque(col)
                    } else {
                        old(self).pixel(px, py)
                    }),
        {
            proof {
                lemma_first_unshaped_skip(lines, text@, 0, j as int);
            }
            let glyph = match shaper.shape_char(c) {
                Ok(g) => g,
                Err(e) => {
                    return Err(e);
                },
            };
            proof {
                lemma_first_unshaped_bounds(lines, text@, j + 1);
            }
            let mut n: usize = 0;
            while n < glyph.len()
                invariant
                    n <= glyph.len(),
                    j < text@.len(),
                    lines == font.lines(),
                    glyph_of(lines, text@[j as int]) == Some(pixels_of(glyph@)),
                    j < first_unshaped(lines, text@, 0),
                    self.wf(),
                    self.same_frame(old(self)),
                    text_inside(old(self), lines, text@, x as int, y as int),
                    forall|px: int, py: int|
                        self.contains(px, py) ==> #[trigger] self.pixel(px, py) == (if painted_before(
                            lines,
                            text@,
                            x as int,
                            y as int,
                            j as int,
                            n as int,
                            px,
                            py,
                        ) {
                            opaque(col)
                        } else {
                            old(self).pixel(px, py)
                        }),
                decreases glyph.len() - n,
            {
                let ghost here = text_pixel(lines, text@, x as int, y as int, j as int, n as int);
                assert(is_lit(lines, text@, j as int, n as int));
                assert(old(self).contains(here.0, here.1));
                let px: u64 = glyph[n][0] as u64 + x as u64 + 6 * (j as u64);
                let py: u64 = glyph[n][1] as u64 + y as u64;
                assert(here == (px as int, py as int));
                let ghost before = *self;
                self.put_pixel(px as u32, py as u32, col);
                proof {
                    assert forall|qx: int, qy: int| self.contains(qx, qy) implies #[trigger] self.pixel(
                        qx,
                        qy,
                    ) == (if painted_before(lines, text@, x as int, y as int, j as int, n + 1, qx, qy) {
                        opaque(col)
                    } else {
                        old(self).pixel(qx, qy)
                    }) by {
                        lemma_painted_step(lines, text@, x as int, y as int, j as int, n as int, qx, qy);
                    }
                }
                n = n + 1;
            }
            proof {
                assert forall|qx: int, qy: int|
                    painted_before(lines, text@, x as int, y as int, j as int, n as int, qx, qy)
                        == painted_before(lines, text@, x as int, y as int, j + 1, 0, qx, qy) by {
                    lemma_painted_next(lines, text@, x as int, y as int, j as int, qx, qy);
                }
            }
            j = j + 1;
        }
        proof {
            lemma_first_unshaped_skip(lines, text@, 0, j as int);
        }
        Ok(())
    }
}

/// The pixels painted before the pixel after `(j, n)` are those painted
/// before `(j, n)` together with the pixel `(j, n)` itself.
pub proof fn lemma_painted_step(
    lines: Seq<Seq<u8>>,
    text: Seq<char>,
    x: int,
    y: int,
    j: int,
    n: int,
    px: int,
    py: int,
)
    requires
        is_lit(lines, text, j, n),
    ensures
        painted_before(lines, text, x, y, j, n + 1, px, py) <==> (painted_before(
            lines,
            text,
            x,
            y,
            j,
            n,
            px,
            py,
        ) || text_pixel(lines, text, x, y, j, n) == (px, py)),
{
    if painted_before(lines, text, x, y, j, n, px, py) {
        let (j2, n2) = choose|j2: int, n2: int|
            is_lit(lines, text, j2, n2) && (j2 < j || (j2 == j && n2 < n)) && #[trigger] text_pixel(
                lines,
                text,
                x,
                y,
                j2,
                n2,
            ) == (px, py);
        assert(is_lit(lines, text, j2, n2) && (j2 < j || (j2 == j && n2 < n + 1)) && text_pixel(
            lines,
            text,
            x,
            y,
            j2,
            n2,
        ) == (px, py));
    }
    if text_pixel(lines, text, x, y, j, n) == (px, py) {
        assert(is_lit(lines, text, j, n) && (j < j || (j == j && n < n + 1)) && text_pixel(
            lines,
            text,
            x,
            y,
            j,
            n,
        ) == (px, py));
    }
}

/// Once every lit pixel of the `j`-th character is painted, the pixels
/// painted are those that come before the next character.
pub proof fn lemma_painted_next(
    lines: Seq<Seq<u8>>,
    text: Seq<char>,
    x: int,
    y: int,
    j: int,
    px: int,
    py: int,
)
    requires
        0 <= j < text.len(),
        glyph_of(lines, text[j]) is Some,
    ensures
        painted_before(lines, text, x, y, j, glyph_of(lines, text[j]).unwrap().len() as int, px, py)
            == painted_before(lines, text, x, y, j + 1, 0, px, py),
{
    let n = glyph_of(lines, text[j]).unwrap().len() as int;
    if painted_before(lines, text, x, y, j, n, px, py) {
        let (j2, n2) = choose|j2: int, n2: int|
            is_lit(lines, text, j2, n2) && (j2 < j || (j2 == j && n2 < n)) && #[trigger] text_pixel(
                lines,
                text,
                x,
                y,
                j2,
                n2,
            ) == (px, py);
        assert(is_lit(lines, text, j2, n2) && (j2 < j + 1 || (j2 == j + 1 && n2 < 0)) && text_pixel(
            lines,
            text,
            x,
            y,
            j2,
            n2,
        ) == (px, py));
    }
    if painted_before(lines, text, x, y, j + 1, 0, px, py) {
        let (j2, n2) = choose|j2: int, n2: int|
            is_lit(lines, text, j2, n2) && (j2 < j + 1 || (j2 == j + 1 && n2 < 0)) && #[trigger] text_pixel(
                lines,
                text,
                x,
                y,
                j2,
                n2,
            ) == (px, py);
        assert(is_lit(lines, text, j2, n2) && (j2 < j || (j2 == j && n2 < n)) && text_pixel(
            lines,
            text,
            x,
            y,
            j2,
            n2,
        ) == (px, py));
    }
}

} // verus!
