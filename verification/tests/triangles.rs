use softraster::buffer::Buffer;
use softraster::ratio::Ratio;
use softraster::text::Font;
use softraster::triangle::edge_series;

fn blank(width: u32, height: u32) -> Buffer {
    let bytes = vec![0u8; 4 * width as usize * height as usize];
    Buffer::with_size(bytes, Font::new(""), width, height)
}

fn pixel(buffer: &Buffer, x: u32, y: u32) -> [u8; 4] {
    let i = 4 * (y as usize * buffer.width as usize + x as usize);
    [buffer.buf[i], buffer.buf[i + 1], buffer.buf[i + 2], buffer.buf[i + 3]]
}

/// The pixels with a full alpha channel, row by row.
fn written(buffer: &Buffer) -> Vec<(u32, u32)> {
    let mut found = Vec::new();
    for y in 0..buffer.height {
        for x in 0..buffer.width {
            if pixel(buffer, x, y)[3] == 255 {
                found.push((x, y));
            }
        }
    }
    found
}

const GREEN: [u8; 3] = [0, 255, 0];

#[test]
fn a_right_triangle_narrows_from_base_to_apex() {
    let mut buffer = blank(8, 8);
    buffer.draw_filled_tri([0, 0], [4, 0], [0, 4], GREEN);
    assert_eq!(
        written(&buffer),
        vec![(0, 0), (1, 0), (2, 0), (3, 0), (0, 1), (1, 1), (2, 1), (0, 2), (1, 2)]
    );
    let mut widths = Vec::new();
    for y in 0..4 {
        widths.push(written(&buffer).iter().filter(|p| p.1 == y).count());
    }
    assert_eq!(widths, vec![4, 3, 2, 0]);
    assert_eq!(pixel(&buffer, 1, 1), [0, 255, 0, 255]);
}

#[test]
fn the_order_of_the_vertices_does_not_matter_when_rows_differ() {
    let a = [2, 0];
    let b = [0, 2];
    let c = [4, 4];
    let mut first = blank(8, 8);
    first.draw_filled_tri(a, b, c, GREEN);
    for (p0, p1, p2) in [(a, c, b), (b, a, c), (b, c, a), (c, a, b), (c, b, a)] {
        let mut other = blank(8, 8);
        other.draw_filled_tri(p0, p1, p2, GREEN);
        assert_eq!(first.buf, other.buf);
    }
    assert_eq!(written(&first), vec![(0, 1), (1, 1), (2, 2)]);
}

#[test]
fn a_triangle_with_a_flat_bottom() {
    let mut buffer = blank(8, 8);
    buffer.draw_filled_tri([0, 0], [0, 4], [4, 4], GREEN);
    // Long side from (0, 0) to (4, 4); short sides down the left edge.
    assert_eq!(written(&buffer), vec![(0, 1), (0, 2), (1, 2)]);
}

#[test]
fn a_triangle_in_one_row_paints_nothing() {
    let mut buffer = blank(8, 8);
    buffer.draw_filled_tri([1, 3], [5, 3], [3, 3], GREEN);
    assert!(written(&buffer).is_empty());
    buffer.draw_filled_tri([0, 0], [7, 0], [3, 0], GREEN);
    assert!(written(&buffer).is_empty());
    buffer.draw_gradient_tri([0, 0], [7, 0], [3, 0], GREEN, [255, 255, 255]);
    assert!(written(&buffer).is_empty());
}

#[test]
fn a_triangle_of_one_point_paints_nothing() {
    let mut buffer = blank(4, 4);
    buffer.draw_filled_tri([2, 2], [2, 2], [2, 2], GREEN);
    assert!(written(&buffer).is_empty());
}

#[test]
fn filling_leaves_other_pixels_alone() {
    let mut buffer = blank(6, 6);
    buffer.clear([7, 7, 7]);
    buffer.draw_filled_tri([0, 0], [4, 0], [0, 4], GREEN);
    for y in 0..6 {
        for x in 0..6 {
            let inside = (y == 0 && x < 4) || (y == 1 && x < 3) || (y == 2 && x < 2);
            let expected = if inside { [0, 255, 0, 255] } else { [7, 7, 7, 255] };
            assert_eq!(pixel(&buffer, x, y), expected);
        }
    }
}

#[test]
fn full_intensity_is_the_colour_itself() {
    let col = [200, 100, 50];
    let mut shaded = blank(8, 8);
    shaded.draw_gradient_tri([0, 0], [4, 0], [0, 4], col, [255, 255, 255]);
    let mut filled = blank(8, 8);
    filled.draw_filled_tri([0, 0], [4, 0], [0, 4], col);
    assert_eq!(shaded.buf, filled.buf);
}

#[test]
fn zero_intensity_is_black() {
    let mut buffer = blank(8, 8);
    buffer.draw_gradient_tri([0, 0], [4, 0], [0, 4], [200, 100, 50], [0, 0, 0]);
    assert_eq!(written(&buffer).len(), 9);
    for (x, y) in written(&buffer) {
        assert_eq!(pixel(&buffer, x, y), [0, 0, 0, 255]);
    }
}

#[test]
fn intensity_is_interpolated_along_edges_and_spans() {
    let mut buffer = blank(8, 8);
    buffer.draw_gradient_tri([0, 0], [4, 0], [0, 4], [200, 100, 50], [0, 255, 0]);
    // Row 0 runs from level 0 to level 255 in four steps of 63.75.
    assert_eq!(pixel(&buffer, 0, 0), [0, 0, 0, 255]);
    assert_eq!(pixel(&buffer, 1, 0), [50, 25, 12, 255]);
    assert_eq!(pixel(&buffer, 2, 0), [100, 50, 25, 255]);
    assert_eq!(pixel(&buffer, 3, 0), [150, 75, 37, 255]);
    // Row 1 runs from level 0 to level 191.25 in three steps.
    assert_eq!(pixel(&buffer, 0, 1), [0, 0, 0, 255]);
    assert_eq!(pixel(&buffer, 1, 1), [50, 25, 12, 255]);
    assert_eq!(pixel(&buffer, 2, 1), [100, 50, 25, 255]);
    // Row 2 runs from level 0 to level 127.5 in two steps.
    assert_eq!(pixel(&buffer, 0, 2), [0, 0, 0, 255]);
    assert_eq!(pixel(&buffer, 1, 2), [50, 25, 12, 255]);
    assert_eq!(written(&buffer).len(), 9);
}

#[test]
fn intensities_travel_with_their_vertices() {
    let col = [200, 100, 50];
    let mut first = blank(8, 8);
    first.draw_gradient_tri([2, 0], [0, 2], [4, 4], col, [10, 120, 250]);
    let mut second = blank(8, 8);
    second.draw_gradient_tri([4, 4], [2, 0], [0, 2], col, [250, 10, 120]);
    assert_eq!(first.buf, second.buf);
    assert_eq!(written(&first), vec![(0, 1), (1, 1), (2, 2)]);
}

#[test]
fn the_short_sides_lose_the_sample_at_their_join() {
    let (short, long) = edge_series(
        0,
        Ratio::from_int(2),
        2,
        Ratio::from_int(0),
        4,
        Ratio::from_int(4),
    );
    let pairs = |values: &[Ratio]| values.iter().map(|r| (r.num, r.den)).collect::<Vec<_>>();
    // From 2 in row 0 to 0 in row 2: 2, 1, of which the last leaves;
    // from 0 in row 2 to 4 in row 4: 0, 2.
    assert_eq!(pairs(&short), vec![(4, 2), (0, 2), (4, 2)]);
    // From 2 in row 0 to 4 in row 4: 2, 2.5, 3, 3.5.
    assert_eq!(pairs(&long), vec![(8, 4), (10, 4), (12, 4), (14, 4)]);
}

#[test]
fn a_flat_top_leaves_only_the_second_short_side() {
    let (short, long) = edge_series(
        0,
        Ratio::from_int(0),
        0,
        Ratio::from_int(4),
        4,
        Ratio::from_int(0),
    );
    let columns = |values: &[Ratio]| values.iter().map(|r| r.to_u32()).collect::<Vec<_>>();
    assert_eq!(columns(&short), vec![4, 3, 2, 1]);
    assert_eq!(columns(&long), vec![0, 0, 0, 0]);
}
