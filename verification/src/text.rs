//! Bitmap glyphs decoded from the text of a BDF font, and kept for reuse.
use vstd::prelude::*;
use vstd::string::*;
use crate::bdf::{
    decode_glyph, encoding_line, glyph_pixels, lemma_find_line_skip, lines_of, pixels_of, split,
    split_lines,
};

verus! {

/// Why a glyph could not be shaped.
#[derive(Clone, Copy, Debug, PartialEq, Eq)]
pub enum FontError {
    /// The font holds no well-formed glyph for the character.
    NotFound,
}

/// A bitmap font: the lines of its BDF source and the glyphs decoded so far.
#[derive(Clone, Debug)]
pub struct Font {
    /// The source text, one entry per line, without the line breaks.
    pub sourcefile: Vec<Vec<u8>>,
    /// Decoded glyphs by code point; `None` marks a glyph not decoded yet.
    pub cache: Vec<Option<Vec<[u16; 2]>>>,
    /// Number of scans of the source made so far (it stops at `u64::MAX`).
    pub scans: u64,
}

/// The code that a character is looked up by: its code point as one byte.
pub open spec fn code_of(glyph: char) -> u8 {
    (glyph as u32 % 256) as u8
}

/// A scan counter after one more scan.
pub open spec fn one_more(scans: u64) -> u64 {
    if scans < u64::MAX {
        (scans + 1) as u64
    } else {
        scans
    }
}

impl Font {
    /// The lines of the font's source.
    pub open spec fn lines(&self) -> Seq<Seq<u8>> {
        lines_of(self.sourcefile@)
    }

    /// The lit pixels of the glyph of a character, relative to the glyph's
    /// origin, or `None` when the font holds no well-formed glyph for it.
    pub open spec fn glyph(&self, glyph: char) -> Option<Seq<(int, int)>> {
        glyph_pixels(self.lines(), code_of(glyph))
    }

    /// Every glyph in the cache is the one that the source holds.
    pub open spec fn wf(&self) -> bool {
        forall|i: int|
            0 <= i < self.cache@.len() ==> (#[trigger] self.cache@[i] matches Some(g)
                ==> glyph_pixels(self.lines(), (i % 256) as u8) == Some(pixels_of(g@)))
    }

    /// Whether the glyph of a character is in the cache.
    pub open spec fn has_cached(&self, glyph: char) -> bool {
        (glyph as u32) < self.cache@.len() && self.cache@[glyph as u32 as int] is Some
    }

    /// What `cacheglyph` makes of a font: the cache reaches up to the
    /// character's code point, new slots are empty, the character's slot
    /// holds its glyph if the source has one, and one more scan is counted.
    pub open spec fn cached_from(&self, before: &Font, glyph: char) -> bool {
        let index = glyph as u32 as int;
        &&& self.sourcefile == before.sourcefile
        &&& self.scans == one_more(before.scans)
        &&& self.cache@.len() == (if before.cache@.len() > index {
            before.cache@.len() as int
        } else {
            index + 1
        })
        &&& forall|i: int|
            0 <= i < self.cache@.len() && i != index ==> #[trigger] self.cache@[i] == (if i
                < before.cache@.len() {
                before.cache@[i]
            } else {
                None
            })
        &&& match self.cache@[index] {
            Some(g) => before.glyph(glyph) == Some(pixels_of(g@)),
            None => before.glyph(glyph) is None,
        }
    }

    /// What `shape_char` returns and makes of a font: the glyph that the
    /// source holds for the character, or `NotFound`. A glyph in the cache
    /// is returned without touching the font; otherwise the font is as
    /// `cacheglyph` leaves it.
    pub open spec fn shaped_from(
        &self,
        before: &Font,
        glyph: char,
        result: Result<Vec<[u16; 2]>, FontError>,
    ) -> bool {
        &&& match result {
            Ok(g) => before.glyph(glyph) == Some(pixels_of(g@)),
            Err(e) => e == FontError::NotFound && before.glyph(glyph) is None,
        }
        &&& if before.has_cached(glyph) {
            *self == *before
        } else {
            self.cached_from(before, glyph)
        }
    }

    /// Splits the text of a font into its lines.
    pub fn format_file(contents: &str) -> (lines: Vec<Vec<u8>>)
        ensures
            lines_of(lines@) == split_lines(contents.spec_bytes()),
    {
        split(contents.as_bytes())
    }

    /// Makes a font from the text of its BDF source, with an empty cache.
    pub fn new(source: &str) -> (font: Font)
        ensures
            font.wf(),
            font.lines() == split_lines(source.spec_bytes()),
            font.cache@.len() == 0,
            font.scans == 0,
    {
        Font { sourcefile: Font::format_file(source), cache: Vec::new(), scans: 0 }
    }

    /// Scans the source for the glyph of a character and puts it in the
    /// cache, which grows by empty slots up to the character's code point.
    pub fn cacheglyph(&mut self, glyph: char)
        requires
            old(self).wf(),
        ensures
            final(self).wf(),
            final(self).cached_from(old(self), glyph),
    {
        let index: usize = glyph as u32 as usize;
        while self.cache.len() < index + 1
            invariant
                index == glyph as u32,
                self.sourcefile == old(self).sourcefile,
                self.scans == old(self).scans,
                old(self).cache@.len() <= self.cache@.len(),
                self.cache@.len() <= index + 1 || self.cache@.len() == old(self).cache@.len(),
                forall|i: int|
                    0 <= i < self.cache@.len() ==> #[trigger] self.cache@[i] == (if i < old(
                        self,
                    ).cache@.len() {
                        old(self).cache@[i]
                    } else {
                        None
                    }),
            decreases index + 1 - self.cache.len(),
        {
            self.cache.push(None);
        }
        let decoded = decode_glyph(&self.sourcefile, (glyph as u32 % 256) as u8);
        self.cache.set(index, decoded);
        if self.scans < u64::MAX {
            self.scans = self.scans + 1;
        }
    }

    /// Returns the lit pixels of the glyph of a character, from the cache if
    /// it is there, and by `cacheglyph` otherwise.
    pub fn shape_char(&mut self, glyph: char) -> (result: Result<Vec<[u16; 2]>, FontError>)
        requires
            old(self).wf(),
        ensures
            final(self).wf(),
            final(self).shaped_from(old(self), glyph, result),
    {
        let index: usize = glyph as u32 as usize;
        if index < self.cache.len() {
            match &self.cache[index] {
                Some(g) => {
                    let copy = g.clone();
                    assert(pixels_of(copy@) =~= pixels_of(g@));
                    return Ok(copy);
                },
                None => {},
            }
        }
        self.cacheglyph(glyph);
        match &self.cache[index] {
            Some(g) => {
                let copy = g.clone();
                assert(pixels_of(copy@) =~= pixels_of(g@));
                Ok(copy)
            },
            None => Err(FontError::NotFound),
        }
    }
}

/// Shaping a character twice gives the same result both times, and once a
/// glyph has been returned, shaping it again neither scans the source nor
/// changes the font.
pub proof fn lemma_shape_twice(
    font: Font,
    glyph: char,
    first: Result<Vec<[u16; 2]>, FontError>,
    between: Font,
    second: Result<Vec<[u16; 2]>, FontError>,
    after: Font,
)
    requires
        font.wf(),
        between.shaped_from(&font, glyph, first),
        after.shaped_from(&between, glyph, second),
    ensures
        first is Ok <==> second is Ok,
        first is Ok ==> pixels_of(first->Ok_0@) == pixels_of(second->Ok_0@),
        first is Err ==> first == second,
        first is Ok ==> after == between,
{
}

/// A character whose code no line of the source announces has no glyph, so
/// that shaping it reports `NotFound`.
pub proof fn lemma_absent_code(font: Font, glyph: char)
    requires
        forall|i: int|
            0 <= i < font.lines().len() ==> font.lines()[i] != encoding_line(code_of(glyph)),
    ensures
        font.glyph(glyph) is None,
{
    let lines = font.lines();
    let code = code_of(glyph);
    lemma_find_line_skip(lines, encoding_line(code), 0, lines.len() as int);
}

} // verus!
