use rasterizer::framebuffer::Framebuffer;

#[test]
fn test_rgba_image_channels() {
    let mut fb = Framebuffer::new(2, 1);
    fb.set_current_color(0x11223344);
    fb.point(0, 0);
    fb.set_current_color(0xAABBCCDD);
    fb.point(1, 0);
    let picture = fb.to_rgba_image().unwrap();
    assert_eq!(picture.image.dimensions(), (2, 1));
    assert_eq!(picture.image.get_pixel(0, 0).0, [0x11, 0x22, 0x33, 0x44]);
    assert_eq!(picture.image.get_pixel(1, 0).0, [0xAA, 0xBB, 0xCC, 0xDD]);
    assert_eq!(
        picture.image.as_raw(),
        &vec![0x11, 0x22, 0x33, 0x44, 0xAA, 0xBB, 0xCC, 0xDD]
    );
}

#[test]
fn test_rgba_image_rows_from_the_top() {
    let mut fb = Framebuffer::new(2, 3);
    fb.set_current_color(0x000000FF);
    fb.point(1, 2);
    let picture = fb.to_rgba_image().unwrap();
    assert_eq!(picture.image.width(), 2);
    assert_eq!(picture.image.height(), 3);
    for y in 0..3u32 {
        for x in 0..2u32 {
            let expected = if (x, y) == (1, 2) { [0, 0, 0, 0xFF] } else { [0, 0, 0, 0] };
            assert_eq!(picture.image.get_pixel(x, y).0, expected);
        }
    }
}

#[test]
fn test_rgba_image_of_an_empty_buffer() {
    let picture = Framebuffer::new(0, 0).to_rgba_image().unwrap();
    assert_eq!(picture.image.dimensions(), (0, 0));
    assert_eq!(picture.image.as_raw().len(), 0);
    let flat = Framebuffer::new(5, 0).to_rgba_image().unwrap();
    assert_eq!(flat.image.dimensions(), (5, 0));
}

#[test]
fn test_rgba_image_refuses_what_does_not_fit() {
    if usize::MAX as u128 > u32::MAX as u128 {
        let wide = Framebuffer::new(0x1_0000_0000u64 as usize, 0);
        assert!(wide.to_rgba_image().is_none());
        let tall = Framebuffer::new(0, 0x1_0000_0000u64 as usize);
        assert!(tall.to_rgba_image().is_none());
    }
}
