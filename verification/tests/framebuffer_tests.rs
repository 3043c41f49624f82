use rasterizer::framebuffer::Framebuffer;

#[test]
fn test_new_framebuffer() {
    let fb = Framebuffer::new(10, 20);
    assert_eq!(fb.width(), 10);
    assert_eq!(fb.height(), 20);
    assert_eq!(fb.buffer().len(), 200); // 10 * 20
}

#[test]
fn test_clear() {
    let mut fb = Framebuffer::new(10, 10);
    fb.set_background_color(0x12345678);
    fb.clear();
    assert!(fb.buffer().iter().all(|&color| color == 0x12345678));
}

#[test]
fn test_point() {
    let mut fb = Framebuffer::new(10, 10);
    fb.set_current_color(0xABCDEF);
    fb.point(5, 5);
    assert_eq!(fb.get_color(5, 5), 0xABCDEF);
    // Check that out-of-bounds does nothing
    fb.point(10, 10);
    fb.point(-1, -1);
    assert_eq!(fb.get_color(10, 10), 0); // Assuming default color is 0 for out-of-bounds
}

#[test]
fn test_get_color() {
    let mut fb = Framebuffer::new(10, 10);
    fb.set_current_color(0xFF00FF);
    fb.point(3, 3);
    assert_eq!(fb.get_color(3, 3), 0xFF00FF);
    assert_eq!(fb.get_color(0, 0), 0); // Default color
}

#[test]
fn test_set_background_color() {
    let mut fb = Framebuffer::new(5, 5);
    assert_eq!(fb.background_color(), 0); // Default
    fb.set_background_color(0x12345678);
    assert_eq!(fb.background_color(), 0x12345678);
}

#[test]
fn test_set_current_color() {
    let mut fb = Framebuffer::new(5, 5);
    assert_eq!(fb.current_color(), 0xFFFFFFFF); // Default
    fb.set_current_color(0x87654321);
    assert_eq!(fb.current_color(), 0x87654321);
}

#[test]
fn test_new_framebuffer_is_all_zero() {
    let fb = Framebuffer::new(3, 2);
    assert_eq!(fb.buffer(), &vec![0u32; 6]);
    assert_eq!(fb.background_color(), 0);
    assert_eq!(fb.current_color(), 0xFFFF_FFFF);
}

#[test]
fn test_empty_framebuffer() {
    let mut fb = Framebuffer::new(0, 7);
    assert_eq!(fb.buffer().len(), 0);
    fb.point(0, 0);
    fb.clear();
    assert_eq!(fb.get_color(0, 0), 0);
    assert_eq!(fb.buffer().len(), 0);
}

#[test]
fn test_point_writes_row_major_index() {
    let mut fb = Framebuffer::new(4, 3);
    fb.set_current_color(7);
    fb.point(1, 2);
    let mut expected = vec![0u32; 12];
    expected[2 * 4 + 1] = 7;
    assert_eq!(fb.buffer(), &expected);
}

#[test]
fn test_point_then_get_color_everywhere() {
    for y in 0..5isize {
        for x in 0..7isize {
            let mut fb = Framebuffer::new(7, 5);
            fb.set_current_color(0x00C0FFEE);
            fb.point(x, y);
            for yy in 0..5usize {
                for xx in 0..7usize {
                    let expected = if (xx as isize, yy as isize) == (x, y) {
                        0x00C0FFEE
                    } else {
                        0
                    };
                    assert_eq!(fb.get_color(xx, yy), expected);
                }
            }
        }
    }
}

#[test]
fn test_out_of_bounds_point_never_mutates() {
    let mut fb = Framebuffer::new(4, 4);
    fb.set_current_color(0xDEADBEEF);
    fb.point(1, 1);
    let before = fb.buffer().clone();
    for &(x, y) in &[
        (-1isize, 0isize),
        (0, -1),
        (4, 0),
        (0, 4),
        (4, 4),
        (-1, -1),
        (isize::MAX, 0),
        (0, isize::MAX),
        (isize::MIN, isize::MIN),
        (isize::MAX, isize::MAX),
        (4, 1),
        (1, 4),
    ] {
        fb.point(x, y);
        assert_eq!(fb.buffer(), &before);
    }
    assert_eq!(fb.width(), 4);
    assert_eq!(fb.height(), 4);
    assert_eq!(fb.current_color(), 0xDEADBEEF);
}

#[test]
fn test_get_color_out_of_bounds_is_zero() {
    let mut fb = Framebuffer::new(3, 3);
    fb.set_background_color(0x55);
    fb.clear();
    assert_eq!(fb.get_color(2, 2), 0x55);
    assert_eq!(fb.get_color(3, 0), 0);
    assert_eq!(fb.get_color(0, 3), 0);
    assert_eq!(fb.get_color(usize::MAX, usize::MAX), 0);
}

#[test]
fn test_setters_do_not_repaint() {
    let mut fb = Framebuffer::new(2, 2);
    fb.set_current_color(1);
    fb.point(0, 0);
    fb.set_current_color(2);
    fb.set_background_color(9);
    assert_eq!(fb.buffer(), &vec![1, 0, 0, 0]);
    fb.point(1, 1);
    assert_eq!(fb.buffer(), &vec![1, 0, 0, 2]);
    fb.clear();
    assert_eq!(fb.buffer(), &vec![9, 9, 9, 9]);
    assert_eq!(fb.current_color(), 2);
}

#[test]
fn test_clear_after_set_background_various() {
    for &c in &[0u32, 1, 0x00FFFFFF, 0xFFFFFFFF, 0x12345678] {
        let mut fb = Framebuffer::new(6, 3);
        fb.set_current_color(0x42);
        fb.point(2, 1);
        fb.set_background_color(c);
        fb.clear();
        for y in 0..3 {
            for x in 0..6 {
                assert_eq!(fb.get_color(x, y), c);
            }
        }
    }
}
