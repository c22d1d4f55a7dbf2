use softraster::buffer::Buffer;
use softraster::text::Font;

fn blank(width: u32, height: u32) -> Buffer {
    let bytes = vec![0u8; 4 * width as usize * height as usize];
    Buffer::with_size(bytes, Font::new(""), width, height)
}

/// The pixels that hold `col`, row by row.
fn painted(buffer: &Buffer, col: [u8; 3]) -> Vec<(u32, u32)> {
    let mut found = Vec::new();
    for y in 0..buffer.height {
        for x in 0..buffer.width {
            let i = 4 * (y as usize * buffer.width as usize + x as usize);
            if buffer.buf[i..i + 4] == [col[0], col[1], col[2], 255] {
                found.push((x, y));
            }
        }
    }
    found
}

const RED: [u8; 3] = [255, 0, 0];

#[test]
fn a_line_from_a_point_to_itself_is_that_point() {
    let mut buffer = blank(8, 8);
    buffer.draw_line([3, 5], [3, 5], RED);
    assert_eq!(painted(&buffer, RED), vec![(3, 5)]);
    let mut corner = blank(8, 8);
    corner.draw_line([0, 0], [0, 0], RED);
    assert_eq!(painted(&corner, RED), vec![(0, 0)]);
}

#[test]
fn a_flat_line_has_one_pixel_per_column() {
    let mut buffer = blank(8, 8);
    buffer.draw_line([0, 0], [4, 2], RED);
    assert_eq!(painted(&buffer, RED), vec![(0, 0), (1, 0), (2, 1), (3, 1)]);
}

#[test]
fn a_flat_line_is_the_same_in_both_directions() {
    let mut forward = blank(8, 8);
    forward.draw_line([0, 0], [4, 2], RED);
    let mut backward = blank(8, 8);
    backward.draw_line([4, 2], [0, 0], RED);
    assert_eq!(forward.buf, backward.buf);
}

#[test]
fn a_horizontal_line_stops_before_its_right_end() {
    let mut buffer = blank(8, 4);
    buffer.draw_line([1, 2], [6, 2], RED);
    assert_eq!(painted(&buffer, RED), vec![(1, 2), (2, 2), (3, 2), (4, 2), (5, 2)]);
}

#[test]
fn a_vertical_line_has_one_pixel_per_row() {
    let mut buffer = blank(4, 8);
    buffer.draw_line([1, 0], [1, 3], RED);
    assert_eq!(painted(&buffer, RED), vec![(1, 0), (1, 1), (1, 2)]);
}

#[test]
fn a_diagonal_is_walked_by_rows() {
    let mut buffer = blank(8, 8);
    buffer.draw_line([0, 0], [3, 3], RED);
    assert_eq!(painted(&buffer, RED), vec![(0, 0), (1, 1), (2, 2)]);
}

#[test]
fn a_steep_line_running_up_starts_at_its_upper_end() {
    let mut buffer = blank(8, 8);
    buffer.draw_line([0, 3], [2, 0], RED);
    assert_eq!(painted(&buffer, RED), vec![(2, 0), (1, 1), (0, 2)]);
}

#[test]
fn a_line_leaves_other_pixels_alone() {
    let mut buffer = blank(6, 6);
    buffer.clear([9, 9, 9]);
    buffer.draw_line([1, 1], [5, 2], RED);
    assert_eq!(painted(&buffer, RED), vec![(1, 1), (2, 1), (3, 1), (4, 1)]);
    assert_eq!(painted(&buffer, [9, 9, 9]).len(), 36 - 4);
}

#[test]
fn a_wire_triangle_is_its_three_lines() {
    let p0 = [1, 1];
    let p1 = [6, 2];
    let p2 = [3, 6];
    let mut triangle = blank(8, 8);
    triangle.draw_wire_tri(p0, p1, p2, RED);
    let mut lines = blank(8, 8);
    lines.draw_line(p0, p1, RED);
    lines.draw_line(p1, p2, RED);
    lines.draw_line(p2, p0, RED);
    assert_eq!(triangle.buf, lines.buf);
}

#[test]
fn a_wire_triangle_paints_no_interior_pixel() {
    let mut buffer = blank(12, 12);
    buffer.draw_wire_tri([0, 0], [10, 0], [0, 10], RED);
    let mut expected: Vec<(u32, u32)> = Vec::new();
    // Top edge, left to right, without its right end.
    for x in 0..10 {
        expected.push((x, 0));
    }
    // The edge from (10, 0) to (0, 10) is walked by rows from its upper end.
    for y in 0..10 {
        expected.push((10 - y, y));
    }
    // Left edge, top to bottom, without its lower end.
    for y in 0..10 {
        expected.push((0, y));
    }
    expected.sort_by_key(|p| (p.1, p.0));
    expected.dedup();
    assert_eq!(painted(&buffer, RED), expected);
    assert!(!painted(&buffer, RED).contains(&(3, 3)));
}
