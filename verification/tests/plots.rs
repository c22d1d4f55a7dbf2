use softraster::buffer::Buffer;
use softraster::text::Font;

fn blank(width: u32, height: u32) -> Buffer {
    let bytes = vec![0u8; 4 * width as usize * height as usize];
    Buffer::with_size(bytes, Font::new(""), width, height)
}

fn painted(buffer: &Buffer) -> Vec<(u32, u32)> {
    let mut found = Vec::new();
    for y in 0..buffer.height {
        for x in 0..buffer.width {
            let i = 4 * (y as usize * buffer.width as usize + x as usize);
            if buffer.buf[i + 3] == 255 {
                found.push((x, y));
            }
        }
    }
    found
}

#[test]
fn a_plot_has_one_pixel_per_column() {
    let mut buffer = blank(4, 3);
    buffer.draw_func(&vec![0, 1, 2, 1], [1, 2, 3]);
    assert_eq!(painted(&buffer), vec![(0, 0), (1, 1), (3, 1), (2, 2)]);
}

#[test]
fn a_sample_below_the_buffer_is_painted_in_the_last_row() {
    let mut buffer = blank(4, 3);
    buffer.draw_func(&vec![2, 3, 100, u32::MAX], [1, 2, 3]);
    assert_eq!(painted(&buffer), vec![(0, 2), (1, 2), (2, 2), (3, 2)]);
}

#[test]
fn a_sample_in_the_first_row_stays_there() {
    let mut buffer = blank(2, 3);
    buffer.draw_func(&vec![0, 0], [1, 2, 3]);
    assert_eq!(painted(&buffer), vec![(0, 0), (1, 0)]);
}

#[test]
fn a_plot_of_no_columns_paints_nothing() {
    let mut buffer = blank(0, 3);
    buffer.draw_func(&vec![], [1, 2, 3]);
    assert!(buffer.buf.is_empty());
}
