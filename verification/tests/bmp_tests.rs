use rasterizer::color::Color;
use rasterizer::framebuffer::Framebuffer;

#[test]
fn test_bmp_header_byte_exact_2x2() {
    let fb = Framebuffer::new(2, 2);
    let bytes = fb.bmp_file_bytes();
    // header fields: signature, size field 54 + 2*2*3 = 66, reserved,
    // offset 54, metadata block size 40, width 2, height 2, 1 plane,
    // 24 bits per pixel, six zero fields
    assert_eq!(bytes[0], b'B');
    assert_eq!(bytes[1], b'M');
    assert_eq!(&bytes[2..6], &[66, 0, 0, 0]);
    assert_eq!(&bytes[6..10], &[0, 0, 0, 0]);
    assert_eq!(&bytes[10..14], &[54, 0, 0, 0]);
    assert_eq!(&bytes[14..18], &[40, 0, 0, 0]);
    assert_eq!(&bytes[18..22], &[2, 0, 0, 0]);
    assert_eq!(&bytes[22..26], &[2, 0, 0, 0]);
    assert_eq!(&bytes[26..28], &[1, 0]);
    assert_eq!(&bytes[28..30], &[24, 0]);
    assert_eq!(&bytes[30..54], &[0u8; 24]);
    // all-black 2x2 pixel data: each row is 6 color bytes plus 2 padding
    // bytes, so the stream holds 54 + 2 * 8 = 70 bytes in all
    assert_eq!(bytes.len(), 70);
    assert_eq!(&bytes[54..70], &[0u8; 16]);
}

#[test]
fn test_bmp_row_padding_multiple_of_four() {
    // width 3: rows are 9 color bytes + 3 padding; width 4: 12 + 0
    let fb3 = Framebuffer::new(3, 1);
    assert_eq!(fb3.bmp_file_bytes().len(), 54 + 12);
    let fb4 = Framebuffer::new(4, 1);
    assert_eq!(fb4.bmp_file_bytes().len(), 54 + 12);
}

#[test]
fn test_bmp_pixel_round_trip() {
    // encode a known 2x2 buffer and read every pixel back out of the byte
    // stream, in the top-row-first order actually produced
    let mut fb = Framebuffer::new(2, 2);
    let colors = [
        Color::new(10, 20, 30),
        Color::new(40, 50, 60),
        Color::new(70, 80, 90),
        Color::new(100, 110, 120),
    ];
    fb.set_pixel(0, 0, colors[0]);
    fb.set_pixel(1, 0, colors[1]);
    fb.set_pixel(0, 1, colors[2]);
    fb.set_pixel(1, 1, colors[3]);
    let bytes = fb.bmp_file_bytes();
    let stride = 8; // 2 pixels * 3 bytes, padded to a multiple of 4
    for y in 0..2usize {
        for x in 0..2usize {
            let off = 54 + y * stride + 3 * x;
            let decoded = Color::new(
                bytes[off + 2] as i32,
                bytes[off + 1] as i32,
                bytes[off] as i32,
            );
            assert_eq!(decoded, colors[y * 2 + x]);
        }
    }
}

#[test]
fn test_bmp_size_field_tracks_dimensions() {
    let fb = Framebuffer::new(8, 3);
    let bytes = fb.bmp_file_bytes();
    // size field: 54 + 8*3*3 = 126
    assert_eq!(&bytes[2..6], &[126, 0, 0, 0]);
    // stream: rows of 24 bytes need no padding
    assert_eq!(bytes.len(), 54 + 3 * 24);
}

#[test]
fn test_bmp_rows_written_top_to_bottom() {
    // the top row of the buffer is written first, not the conventional
    // bottom-up bitmap order
    let mut fb = Framebuffer::new(1, 2);
    fb.set_pixel(0, 0, Color::new(1, 2, 3));
    fb.set_pixel(0, 1, Color::new(4, 5, 6));
    let bytes = fb.bmp_file_bytes();
    // row stride: 3 bytes + 1 padding
    assert_eq!(&bytes[54..57], &[3, 2, 1]);
    assert_eq!(&bytes[58..61], &[6, 5, 4]);
}
