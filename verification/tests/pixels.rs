use softraster::buffer::{Buffer, HEIGHT, WIDTH};
use softraster::text::Font;

fn blank(width: u32, height: u32) -> Buffer {
    let bytes = vec![0u8; 4 * width as usize * height as usize];
    Buffer::with_size(bytes, Font::new(""), width, height)
}

fn pixel(buffer: &Buffer, x: u32, y: u32) -> [u8; 4] {
    let i = 4 * (y as usize * buffer.width as usize + x as usize);
    [buffer.buf[i], buffer.buf[i + 1], buffer.buf[i + 2], buffer.buf[i + 3]]
}

#[test]
fn new_wraps_a_buffer_of_the_default_size() {
    let bytes = vec![7u8; 4 * WIDTH as usize * HEIGHT as usize];
    let mut buffer = Buffer::new(bytes, Font::new(""));
    assert_eq!(buffer.width, 512);
    assert_eq!(buffer.height, 512);
    assert_eq!(buffer.into_vec().len(), 4 * 512 * 512);
    assert!(buffer.into_vec().iter().all(|b| *b == 7));
}

#[test]
fn clear_paints_every_pixel() {
    for (w, h) in [(1u32, 1u32), (1, 5), (7, 1), (4, 3)] {
        let mut buffer = blank(w, h);
        buffer.clear([10, 20, 30]);
        for y in 0..h {
            for x in 0..w {
                assert_eq!(pixel(&buffer, x, y), [10, 20, 30, 255]);
            }
        }
        assert_eq!(buffer.buf.len(), 4 * (w * h) as usize);
    }
}

#[test]
fn clear_of_an_empty_buffer_changes_nothing() {
    let mut buffer = blank(0, 0);
    buffer.clear([1, 2, 3]);
    assert!(buffer.buf.is_empty());
}

#[test]
fn put_pixel_writes_one_pixel_only() {
    let mut buffer = blank(4, 3);
    buffer.clear([1, 1, 1]);
    buffer.put_pixel(2, 1, [0xff, 0x80, 0x00]);
    for y in 0..3 {
        for x in 0..4 {
            let expected = if (x, y) == (2, 1) { [0xff, 0x80, 0x00, 0xff] } else { [1, 1, 1, 255] };
            assert_eq!(pixel(&buffer, x, y), expected);
        }
    }
}

#[test]
fn put_pixel_is_idempotent() {
    let mut once = blank(3, 3);
    once.put_pixel(1, 2, [9, 8, 7]);
    let mut twice = blank(3, 3);
    twice.put_pixel(1, 2, [9, 8, 7]);
    twice.put_pixel(1, 2, [9, 8, 7]);
    assert_eq!(once.buf, twice.buf);
}

#[test]
fn put_pixel_uses_the_row_major_layout() {
    let mut buffer = blank(3, 2);
    buffer.put_pixel(2, 1, [5, 6, 7]);
    let mut expected = vec![0u8; 24];
    expected[20] = 5;
    expected[21] = 6;
    expected[22] = 7;
    expected[23] = 255;
    assert_eq!(buffer.buf, expected);
}

#[test]
fn put_pixel_reaches_the_corners() {
    let mut buffer = blank(3, 2);
    buffer.put_pixel(0, 0, [1, 2, 3]);
    buffer.put_pixel(2, 1, [4, 5, 6]);
    assert_eq!(pixel(&buffer, 0, 0), [1, 2, 3, 255]);
    assert_eq!(pixel(&buffer, 2, 1), [4, 5, 6, 255]);
    assert_eq!(pixel(&buffer, 1, 0), [0, 0, 0, 0]);
}

#[test]
fn the_backing_array_can_be_read_and_written() {
    let mut buffer = blank(2, 2);
    buffer.put_pixel(1, 0, [3, 4, 5]);
    assert_eq!(buffer.into_vec()[4..8], [3, 4, 5, 255]);
    buffer.into_vec_mut()[0] = 42;
    assert_eq!(pixel(&buffer, 0, 0), [42, 0, 0, 0]);
    assert_eq!(buffer.into_vec_mut().as_slice().len(), 16);
}
