use rasterizer::bmp::{
    checked_bmp_size, padding_bytes, write_bmp_file, write_bmp_header, write_pixel_data,
    BmpRenderable, BMP_HEADER_SIZE,
};
use rasterizer::framebuffer::Framebuffer;

fn le32(bytes: &[u8], at: usize) -> u32 {
    u32::from_le_bytes([bytes[at], bytes[at + 1], bytes[at + 2], bytes[at + 3]])
}

fn filled(width: usize, height: usize, color: u32) -> Framebuffer {
    let mut fb = Framebuffer::new(width, height);
    fb.set_background_color(color);
    fb.clear();
    fb
}

#[test]
fn test_bmp_two_by_two_white() {
    let fb = filled(2, 2, 0x00FFFFFF);
    let file = fb.render_to_bmp().unwrap();
    assert_eq!(file.len(), 54 + 2 * 2 * 3 + 2 * 2);
    assert_eq!(file.len(), 70);
    assert_eq!(file[0], 0x42);
    assert_eq!(file[1], 0x4D);
    assert_eq!(&file[18..22], &[2, 0, 0, 0]);
    assert_eq!(&file[22..26], &[2, 0, 0, 0]);
    assert_eq!(le32(&file, 2), 70);
    let row = [0xFF, 0xFF, 0xFF, 0xFF, 0xFF, 0xFF, 0, 0];
    assert_eq!(&file[54..62], &row);
    assert_eq!(&file[62..70], &row);
}

#[test]
fn test_bmp_header_bytes() {
    let mut header = Vec::new();
    write_bmp_header(&mut header, 3, 5);
    let size = 54 + 3 * 5 * 3 + 5 * 3;
    assert_eq!(size, 114);
    let mut expected: Vec<u8> = vec![
        0x42, 0x4D, // magic
        114, 0, 0, 0, // file size
        0, 0, 0, 0, // reserved
        54, 0, 0, 0, // offset of the pixel data
        40, 0, 0, 0, // info header size
        3, 0, 0, 0, // width
        5, 0, 0, 0, // height
        1, 0, // planes
        24, 0, // bits per pixel
    ];
    expected.extend_from_slice(&[0u8; 24]);
    assert_eq!(header, expected);
    assert_eq!(header.len(), BMP_HEADER_SIZE);
}

#[test]
fn test_bmp_header_is_appended() {
    let mut out = vec![7u8, 8, 9];
    write_bmp_header(&mut out, 1, 1);
    assert_eq!(out.len(), 3 + 54);
    assert_eq!(&out[..5], &[7, 8, 9, 0x42, 0x4D]);
    assert_eq!(le32(&out, 3 + 2), 54 + 3 + 1);
}

#[test]
fn test_bmp_header_wide_fields() {
    let mut header = Vec::new();
    write_bmp_header(&mut header, 0x0102, 0x0304);
    assert_eq!(&header[18..22], &[0x02, 0x01, 0, 0]);
    assert_eq!(&header[22..26], &[0x04, 0x03, 0, 0]);
    let padding = (4 - (0x0102 * 3 % 4)) % 4;
    let size = 54 + 0x0102 * 0x0304 * 3 + 0x0304 * padding;
    assert_eq!(le32(&header, 2), size as u32);
    assert_eq!(&header[2..6], &(size as u32).to_le_bytes());
}

#[test]
fn test_bmp_pixel_order_and_rows() {
    // Two rows of two pixels: the file holds the lower row first, and each
    // pixel as blue, green, red.
    let mut data = Vec::new();
    write_pixel_data(&mut data, &[0x00112233, 0x00445566, 0x00778899, 0x00AABBCC], 2, 2);
    assert_eq!(
        data,
        vec![
            0x99, 0x88, 0x77, 0xCC, 0xBB, 0xAA, 0, 0, // row 1
            0x33, 0x22, 0x11, 0x66, 0x55, 0x44, 0, 0, // row 0
        ]
    );
}

#[test]
fn test_bmp_pixel_data_drops_the_high_byte() {
    let mut data = Vec::new();
    write_pixel_data(&mut data, &[0xFF010203], 1, 1);
    assert_eq!(data, vec![0x03, 0x02, 0x01, 0]);
}

#[test]
fn test_bmp_row_padding() {
    assert_eq!(padding_bytes(0), 0);
    assert_eq!(padding_bytes(1), 1);
    assert_eq!(padding_bytes(2), 2);
    assert_eq!(padding_bytes(3), 3);
    assert_eq!(padding_bytes(4), 0);
    assert_eq!(padding_bytes(5), 1);
    assert_eq!(padding_bytes(usize::MAX), (4 - (usize::MAX % 4) * 3 % 4) % 4);
    for width in 1..9usize {
        let cells = vec![0x00010203u32; width];
        let mut data = Vec::new();
        write_pixel_data(&mut data, &cells, width, 1);
        assert_eq!(data.len() % 4, 0);
        assert_eq!(data.len(), width * 3 + (4 - (width * 3 % 4)) % 4);
        for x in 0..width {
            assert_eq!(&data[3 * x..3 * x + 3], &[3, 2, 1]);
        }
        assert!(data[3 * width..].iter().all(|&b| b == 0));
    }
}

#[test]
fn test_bmp_file_is_header_then_pixels() {
    let cells = [1u32, 2, 3, 4, 5, 6];
    let mut file = Vec::new();
    write_bmp_file(&mut file, &cells, 3, 2);
    let mut header = Vec::new();
    write_bmp_header(&mut header, 3, 2);
    let mut data = Vec::new();
    write_pixel_data(&mut data, &cells, 3, 2);
    assert_eq!(&file[..54], &header[..]);
    assert_eq!(&file[54..], &data[..]);
    assert_eq!(
        data,
        vec![4, 0, 0, 5, 0, 0, 6, 0, 0, 0, 0, 0, 1, 0, 0, 2, 0, 0, 3, 0, 0, 0, 0, 0]
    );
}

#[test]
fn test_bmp_size_in_header_matches_length() {
    for height in 0..6usize {
        for width in 0..9usize {
            let fb = filled(width, height, 0x00A1B2C3);
            let file = fb.render_to_bmp().unwrap();
            let expected = 54 + width * height * 3 + height * ((4 - (width * 3 % 4)) % 4);
            assert_eq!(file.len(), expected);
            assert_eq!(le32(&file, 2) as usize, expected);
            assert_eq!(le32(&file, 18) as usize, width);
            assert_eq!(le32(&file, 22) as usize, height);
            assert_eq!(checked_bmp_size(width, height), Some(expected as u32));
        }
    }
}

#[test]
fn test_bmp_render_follows_drawing() {
    let mut fb = Framebuffer::new(2, 2);
    fb.set_current_color(0x00102030);
    fb.point(1, 0);
    let file = fb.render_to_bmp().unwrap();
    assert_eq!(
        &file[54..],
        &[
            0, 0, 0, 0, 0, 0, 0, 0, // row 1
            0, 0, 0, 0x30, 0x20, 0x10, 0, 0, // row 0
        ]
    );
}

#[test]
fn test_bmp_size_limits() {
    assert_eq!(checked_bmp_size(0, 0), Some(54));
    assert_eq!(checked_bmp_size(2, 2), Some(70));
    assert_eq!(checked_bmp_size(1, 1), Some(58));
    assert_eq!(checked_bmp_size(40_000, 40_000), None);
    assert_eq!(checked_bmp_size(usize::MAX, 1), None);
    assert_eq!(checked_bmp_size(1, usize::MAX), None);
    // 4 * 357913937 * 3 + 54 == 4294967298 > u32::MAX, one row less fits.
    assert_eq!(checked_bmp_size(4, 357_913_937), None);
    assert_eq!(checked_bmp_size(4, 357_913_936), Some(54 + 4 * 357_913_936 * 3));
    assert_eq!(checked_bmp_size(0xFFFF_FFFF, 0), Some(54));
}

#[test]
fn test_bmp_render_refuses_what_the_header_cannot_hold() {
    if usize::MAX as u128 > u32::MAX as u128 {
        let wide = Framebuffer::new(0x1_0000_0000u64 as usize, 0);
        assert_eq!(wide.render_to_bmp(), None);
        let tall = Framebuffer::new(0, 0x1_0000_0000u64 as usize);
        assert_eq!(tall.render_to_bmp(), None);
    }
    let flat = Framebuffer::new(0xFFFF_FFFF, 0);
    let file = flat.render_to_bmp().unwrap();
    assert_eq!(file.len(), 54);
    assert_eq!(&file[18..22], &[0xFF, 0xFF, 0xFF, 0xFF]);
}
