//! The part of the BDF font format that glyph shaping relies on.
//!
//! A font is a sequence of text lines. The glyph of a code point is found
//! behind the line `ENCODING <code>`: the next `BITMAP` line opens its bitmap,
//! which holds one hexadecimal number per pixel row and ends at the line
//! `ENDCHAR`. Every other record of the format is ignored.
use vstd::prelude::*;
use vstd::arithmetic::power2::{lemma2_to64, lemma2_to64_rest, lemma_pow2_unfold, pow2};
use vstd::string::*;

verus! {

/// The byte that ends a line.
pub const LINE_FEED: u8 = 10;

/// Number of rows that a glyph's bitmap may hold, so that its row numbers fit
/// in a `u16`.
pub const MAX_ROWS: usize = 0x1_0000;

/// The lines of a text: the runs of bytes between its line feeds. A text
/// with `n` line feeds has `n + 1` lines, some of which may be empty.
pub open spec fn split_lines(text: Seq<u8>) -> Seq<Seq<u8>>
    decreases text.len(),
{
    if text.len() == 0 {
        seq![Seq::<u8>::empty()]
    } else {
        let before = split_lines(text.drop_last());
        if text.last() == LINE_FEED {
            before.push(Seq::<u8>::empty())
        } else {
            before.drop_last().push(before.last().push(text.last()))
        }
    }
}

/// The contents of a vector of lines.
pub open spec fn lines_of(lines: Seq<Vec<u8>>) -> Seq<Seq<u8>> {
    Seq::new(lines.len(), |i: int| lines[i]@)
}

/// The decimal digits of `n`, as ASCII bytes, without leading zeros.
pub open spec fn decimal(n: nat) -> Seq<u8>
    decreases n,
{
    if n < 10 {
        seq![(48 + n) as u8]
    } else {
        decimal(n / 10).push((48 + n % 10) as u8)
    }
}

/// The line that announces the glyph of `code`.
pub open spec fn encoding_line(code: u8) -> Seq<u8> {
    "ENCODING ".spec_bytes() + decimal(code as nat)
}

/// Index of the first line at or after `from` that equals `target`, or the
/// number of lines if there is none.
pub open spec fn find_line(lines: Seq<Seq<u8>>, target: Seq<u8>, from: int) -> int
    decreases lines.len() - from,
{
    if from >= lines.len() {
        lines.len() as int
    } else if lines[from] == target {
        from
    } else {
        find_line(lines, target, from + 1)
    }
}

/// The value of a hexadecimal digit, in either case.
pub open spec fn hex_digit(b: u8) -> Option<nat> {
    if 48 <= b <= 57 {
        Some((b - 48) as nat)
    } else if 97 <= b <= 102 {
        Some((b - 87) as nat)
    } else if 65 <= b <= 70 {
        Some((b - 55) as nat)
    } else {
        None
    }
}

/// The number that a string of hexadecimal digits denotes.
pub open spec fn hex_value(s: Seq<u8>) -> nat
    decreases s.len(),
{
    if s.len() == 0 {
        0
    } else {
        16 * hex_value(s.drop_last()) + hex_digit(s.last()).unwrap_or(0)
    }
}

/// Whether a line is a bitmap row: a non-empty string of hexadecimal digits
/// whose value fits in an `i64`.
pub open spec fn is_hex_row(s: Seq<u8>) -> bool {
    &&& s.len() > 0
    &&& forall|i: int| 0 <= i < s.len() ==> hex_digit(#[trigger] s[i]) is Some
    &&& hex_value(s) <= i64::MAX
}

/// The last `width` binary digits of `v`, the most significant first.
pub open spec fn binary_digits(v: nat, width: nat) -> Seq<bool>
    decreases width,
{
    if width == 0 {
        Seq::<bool>::empty()
    } else {
        binary_digits(v / 2, (width - 1) as nat).push(v % 2 == 1)
    }
}

/// Number of binary digits of `v` without leading zeros.
pub open spec fn bit_length(v: nat) -> nat
    decreases v,
{
    if v == 0 {
        0
    } else {
        1 + bit_length(v / 2)
    }
}

/// A bitmap row as binary digits: all the digits of the value, padded with
/// zeros on the left to eight.
pub open spec fn row_digits(v: nat) -> Seq<bool> {
    binary_digits(
        v,
        if bit_length(v) < 8 {
            8
        } else {
            bit_length(v)
        },
    )
}

/// The lit pixels of one row: a pixel `(x, y)` for each digit at position `x`
/// that is one, from left to right.
pub open spec fn lit_pixels(digits: Seq<bool>, y: int) -> Seq<(int, int)>
    decreases digits.len(),
{
    if digits.len() == 0 {
        Seq::<(int, int)>::empty()
    } else if digits.last() {
        lit_pixels(digits.drop_last(), y).push((digits.len() - 1, y))
    } else {
        lit_pixels(digits.drop_last(), y)
    }
}

/// The lit pixels of a bitmap, row by row from the top.
pub open spec fn bitmap_pixels(rows: Seq<Seq<u8>>) -> Seq<(int, int)>
    decreases rows.len(),
{
    if rows.len() == 0 {
        Seq::<(int, int)>::empty()
    } else {
        bitmap_pixels(rows.drop_last()) + lit_pixels(row_digits(hex_value(rows.last())), rows.len() - 1)
    }
}

/// Index of the first bitmap row of the glyph of `code`: the line after the
/// first `BITMAP` line that follows the first line `ENCODING <code>`. It lies
/// past the end of the font when one of the two lines is missing.
pub open spec fn bitmap_start(lines: Seq<Seq<u8>>, code: u8) -> int {
    let encoding = find_line(lines, encoding_line(code), 0);
    find_line(lines, "BITMAP".spec_bytes(), encoding + 1) + 1
}

/// Index of the line `ENDCHAR` that closes the bitmap of `code`.
pub open spec fn bitmap_end(lines: Seq<Seq<u8>>, code: u8) -> int {
    find_line(lines, "ENDCHAR".spec_bytes(), bitmap_start(lines, code))
}

/// Whether the font holds a well-formed glyph for `code`.
pub open spec fn has_glyph(lines: Seq<Seq<u8>>, code: u8) -> bool {
    let start = bitmap_start(lines, code);
    let end = bitmap_end(lines, code);
    &&& end < lines.len()
    &&& end - start <= MAX_ROWS
    &&& forall|r: int| start <= r < end ==> is_hex_row(#[trigger] lines[r])
}

/// The lit pixels of the glyph of `code`, relative to the glyph's origin, or
/// `None` when the font holds no well-formed glyph for it.
pub open spec fn glyph_pixels(lines: Seq<Seq<u8>>, code: u8) -> Option<Seq<(int, int)>> {
    if has_glyph(lines, code) {
        Some(bitmap_pixels(lines.subrange(bitmap_start(lines, code), bitmap_end(lines, code))))
    } else {
        None
    }
}

/// The pixels that a vector of coordinate pairs names.
pub open spec fn pixels_of(coords: Seq<[u16; 2]>) -> Seq<(int, int)> {
    Seq::new(coords.len(), |i: int| (coords[i][0] as int, coords[i][1] as int))
}

/// A search that starts past a stretch without the target finds what a
/// search from the start of the stretch finds.
pub proof fn lemma_find_line_skip(lines: Seq<Seq<u8>>, target: Seq<u8>, from: int, to: int)
    requires
        0 <= from <= to <= lines.len(),
        forall|i: int| from <= i < to ==> lines[i] != target,
    ensures
        find_line(lines, target, from) == find_line(lines, target, to),
    decreases to - from,
{
    if from < to {
        lemma_find_line_skip(lines, target, from + 1, to);
    }
}

/// What a search finds lies between its start and the end of the font, is
/// the target if it is a line at all, and no line before it is the target.
pub proof fn lemma_find_line(lines: Seq<Seq<u8>>, target: Seq<u8>, from: int)
    requires
        0 <= from,
    ensures
        from <= find_line(lines, target, from) || find_line(lines, target, from) == lines.len(),
        find_line(lines, target, from) <= lines.len(),
        find_line(lines, target, from) < lines.len() ==> lines[find_line(lines, target, from)]
            == target,
        forall|i: int| from <= i < find_line(lines, target, from) ==> lines[i] != target,
    decreases lines.len() - from,
{
    if from < lines.len() && lines[from] != target {
        lemma_find_line(lines, target, from + 1);
    }
}

/// The value of a string of digits is at least the value of each of its
/// prefixes.
pub proof fn lemma_hex_value_grows(s: Seq<u8>, n: int)
    requires
        0 <= n <= s.len(),
    ensures
        hex_value(s.take(n)) <= hex_value(s),
    decreases s.len() - n,
{
    if n == s.len() {
        assert(s.take(n) =~= s);
    } else {
        lemma_hex_value_grows(s, n + 1);
        assert(s.take(n + 1).drop_last() =~= s.take(n));
    }
}

/// A number below `2^n` has at most `n` binary digits.
pub proof fn lemma_bit_length_bound(v: nat, n: nat)
    requires
        v < pow2(n),
    ensures
        bit_length(v) <= n,
    decreases n,
{
    if v > 0 {
        if n == 0 {
            lemma2_to64();
        } else {
            lemma_pow2_unfold(n);
            lemma_bit_length_bound(v / 2, (n - 1) as nat);
        }
    }
}

/// There are as many binary digits as were asked for.
pub proof fn lemma_binary_digits_len(v: nat, width: nat)
    ensures
        binary_digits(v, width).len() == width,
    decreases width,
{
    if width > 0 {
        lemma_binary_digits_len(v / 2, (width - 1) as nat);
    }
}

/// Splits a text at its line feeds.
pub fn split(text: &[u8]) -> (lines: Vec<Vec<u8>>)
    ensures
        lines_of(lines@) == split_lines(text@),
{
    let mut lines: Vec<Vec<u8>> = Vec::new();
    let mut current: Vec<u8> = Vec::new();
    let mut i: usize = 0;
    assert(text@.take(0) =~= Seq::<u8>::empty());
    assert(lines_of(lines@).push(current@) =~= seq![Seq::<u8>::empty()]);
    while i < text.len()
        invariant
            i <= text.len(),
            lines_of(lines@).push(current@) == split_lines(text@.take(i as int)),
        decreases text.len() - i,
    {
        let ghost before = lines_of(lines@).push(current@);
        let ghost old_lines = lines@;
        let ghost old_current = current@;
        assert(text@.take(i + 1).drop_last() =~= text@.take(i as int));
        if text[i] == LINE_FEED {
            lines.push(current);
            current = Vec::new();
            assert(lines_of(lines@).push(current@) =~= before.push(Seq::<u8>::empty()));
        } else {
            current.push(text[i]);
            assert(lines_of(lines@).push(current@) =~= before.drop_last().push(
                before.last().push(text@[i as int]),
            ));
        }
        i = i + 1;
    }
    assert(text@.take(i as int) =~= text@);
    let ghost done = lines_of(lines@).push(current@);
    lines.push(current);
    assert(lines_of(lines@) =~= done);
    lines
}

/// Whether two byte strings are equal.
fn same_bytes(a: &[u8], b: &[u8]) -> (same: bool)
    ensures
        same == (a@ == b@),
{
    if a.len() != b.len() {
        return false;
    }
    let mut i: usize = 0;
    while i < a.len()
        invariant
            i <= a.len(),
            a.len() == b.len(),
            forall|j: int| 0 <= j < i ==> a@[j] == b@[j],
        decreases a.len() - i,
    {
        if a[i] != b[i] {
            return false;
        }
        i = i + 1;
    }
    assert(a@ =~= b@);
    true
}

/// Finds the first line at or after `from` that equals `target`.
fn find_line_from(lines: &Vec<Vec<u8>>, target: &[u8], from: usize) -> (found: usize)
    requires
        from <= lines.len(),
    ensures
        found == find_line(lines_of(lines@), target@, from as int),
        from <= found <= lines.len(),
{
    let mut i: usize = from;
    while i < lines.len()
        invariant
            from <= i <= lines.len(),
            forall|j: int| from <= j < i ==> lines_of(lines@)[j] != target@,
        decreases lines.len() - i,
    {
        if same_bytes(lines[i].as_slice(), target) {
            proof {
                lemma_find_line_skip(lines_of(lines@), target@, from as int, i as int);
            }
            return i;
        }
        i = i + 1;
    }
    proof {
        lemma_find_line_skip(lines_of(lines@), target@, from as int, i as int);
    }
    i
}

/// Writes the line that announces the glyph of `code`.
fn encoding_line_bytes(code: u8) -> (line: Vec<u8>)
    ensures
        line@ == encoding_line(code),
{
    let prefix: &[u8] = "ENCODING ".as_bytes();
    let mut line: Vec<u8> = Vec::new();
    let mut i: usize = 0;
    while i < prefix.len()
        invariant
            i <= prefix.len(),
            line@ == prefix@.take(i as int),
        decreases prefix.len() - i,
    {
        line.push(prefix[i]);
        assert(line@ =~= prefix@.take(i + 1));
        i = i + 1;
    }
    assert(prefix@.take(i as int) =~= prefix@);
    proof {
        reveal_with_fuel(decimal, 3);
    }
    if code >= 100 {
        line.push(48 + code / 100);
    }
    if code >= 10 {
        line.push(48 + (code / 10) % 10);
    }
    line.push(48 + code % 10);
    assert(line@ =~= encoding_line(code));
    line
}

/// Reads a bitmap row: the value of the line if it is a non-empty string
/// of hexadecimal digits that fits in an `i64`.
pub fn parse_hex_row(line: &[u8]) -> (value: Option<u64>)
    ensures
        value is Some <==> is_hex_row(line@),
        value matches Some(v) ==> v == hex_value(line@),
{
    if line.len() == 0 {
        return None;
    }
    let mut acc: u64 = 0;
    let mut i: usize = 0;
    assert(line@.take(0) =~= Seq::<u8>::empty());
    while i < line.len()
        invariant
            i <= line.len(),
            acc == hex_value(line@.take(i as int)),
            acc <= i64::MAX,
            forall|j: int| 0 <= j < i ==> hex_digit(#[trigger] line@[j]) is Some,
        decreases line.len() - i,
    {
        let b: u8 = line[i];
        let digit: u64 = if 48 <= b && b <= 57 {
            (b - 48) as u64
        } else if 97 <= b && b <= 102 {
            (b - 87) as u64
        } else if 65 <= b && b <= 70 {
            (b - 55) as u64
        } else {
            return None;
        };
        assert(line@.take(i + 1).drop_last() =~= line@.take(i as int));
        assert(hex_value(line@.take(i + 1)) == 16 * acc + digit);
        if acc > (i64::MAX as u64 - digit) / 16 {
            proof {
                lemma_hex_value_grows(line@, i + 1);
            }
            return None;
        }
        acc = 16 * acc + digit;
        i = i + 1;
    }
    assert(line@.take(i as int) =~= line@);
    Some(acc)
}

/// Counts the binary digits of `v`.
fn bit_length_of(v: u64) -> (n: u32)
    ensures
        n == bit_length(v as nat),
        n <= 64,
    decreases v,
{
    proof {
        lemma2_to64_rest();
        lemma_bit_length_bound(v as nat, 64);
    }
    if v == 0 {
        0
    } else {
        1 + bit_length_of(v / 2)
    }
}

/// Appends the last `width` binary digits of `v`, the most significant
/// first.
fn push_binary_digits(v: u64, width: u32, out: &mut Vec<bool>)
    ensures
        final(out)@ == old(out)@ + binary_digits(v as nat, width as nat),
    decreases width,
{
    if width > 0 {
        push_binary_digits(v / 2, width - 1, out);
        out.push(v % 2 == 1);
        assert(out@ =~= old(out)@ + binary_digits(v as nat, width as nat));
    } else {
        assert(out@ =~= old(out)@ + binary_digits(v as nat, width as nat));
    }
}

/// Decodes the glyph of `code` from the lines of a font: its lit pixels row
/// by row, or `None` when the font holds no well-formed glyph for the code.
pub fn decode_glyph(lines: &Vec<Vec<u8>>, code: u8) -> (glyph: Option<Vec<[u16; 2]>>)
    ensures
        glyph is Some <==> has_glyph(lines_of(lines@), code),
        glyph matches Some(g) ==> glyph_pixels(lines_of(lines@), code) == Some(pixels_of(g@)),
{
    let ghost all = lines_of(lines@);
    let target = encoding_line_bytes(code);
    let encoding = find_line_from(lines, target.as_slice(), 0);
    proof {
        lemma_find_line(all, "BITMAP".spec_bytes(), encoding + 1);
        lemma_find_line(all, "ENDCHAR".spec_bytes(), bitmap_start(all, code));
    }
    if encoding == lines.len() {
        return None;
    }
    let opening = find_line_from(lines, "BITMAP".as_bytes(), encoding + 1);
    if opening == lines.len() {
        return None;
    }
    let start: usize = opening + 1;
    let end = find_line_from(lines, "ENDCHAR".as_bytes(), start);
    if end == lines.len() || end - start > MAX_ROWS {
        return None;
    }
    assert(start == bitmap_start(all, code));
    assert(end == bitmap_end(all, code));
    let mut bitmap: Vec<[u16; 2]> = Vec::new();
    let mut r: usize = start;
    assert(all.subrange(start as int, r as int) =~= Seq::<Seq<u8>>::empty());
    assert(pixels_of(bitmap@) =~= Seq::<(int, int)>::empty());
    while r < end
        invariant
            start <= r <= end < lines.len(),
            end - start <= MAX_ROWS,
            all == lines_of(lines@),
            start == bitmap_start(all, code),
            end == bitmap_end(all, code),
            forall|j: int| start <= j < r ==> is_hex_row(#[trigger] all[j]),
            pixels_of(bitmap@) == bitmap_pixels(all.subrange(start as int, r as int)),
        decreases end - r,
    {
        let value = match parse_hex_row(lines[r].as_slice()) {
            Some(v) => v,
            None => {
                assert(!is_hex_row(all[r as int]));
                return None;
            },
        };
        let n = bit_length_of(value);
        let width: u32 = if n < 8 { 8 } else { n };
        let mut digits: Vec<bool> = Vec::new();
        push_binary_digits(value, width, &mut digits);
        proof {
            lemma_binary_digits_len(value as nat, width as nat);
            assert(digits@ =~= row_digits(value as nat));
        }
        let y: u16 = (r - start) as u16;
        let ghost above = pixels_of(bitmap@);
        let mut x: usize = 0;
        assert(digits@.take(0) =~= Seq::<bool>::empty());
        assert(pixels_of(bitmap@) =~= above + lit_pixels(digits@.take(0), y as int));
        while x < digits.len()
            invariant
                x <= digits.len(),
                digits@.len() <= 64,
                pixels_of(bitmap@) == above + lit_pixels(digits@.take(x as int), y as int),
            decreases digits.len() - x,
        {
            assert(digits@.take(x + 1).drop_last() =~= digits@.take(x as int));
            if digits[x] {
                let ghost painted = pixels_of(bitmap@);
                bitmap.push([x as u16, y]);
                assert(pixels_of(bitmap@) =~= painted.push((x as int, y as int)));
                assert(pixels_of(bitmap@) =~= above + lit_pixels(digits@.take(x + 1), y as int));
            }
            x = x + 1;
        }
        proof {
            assert(digits@.take(x as int) =~= digits@);
            let rows = all.subrange(start as int, r + 1);
            assert(rows.drop_last() =~= all.subrange(start as int, r as int));
            assert(rows.last() == all[r as int]);
        }
        r = r + 1;
    }
    Some(bitmap)
}

} // verus!
