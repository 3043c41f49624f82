use rasterizer::framebuffer::Framebuffer;
use rasterizer::line_impl::Line;

fn drawn(fb: &Framebuffer) -> Vec<(usize, usize)> {
    let mut cells = Vec::new();
    for y in 0..fb.height() {
        for x in 0..fb.width() {
            if fb.get_color(x, y) != 0 {
                cells.push((x, y));
            }
        }
    }
    cells
}

fn line_cells(start: (isize, isize), end: (isize, isize)) -> Vec<(usize, usize)> {
    let mut fb = Framebuffer::new(16, 16);
    fb.line(start, end);
    drawn(&fb)
}

#[test]
fn test_line_horizontal_six_points() {
    assert_eq!(
        line_cells((0, 0), (5, 0)),
        vec![(0, 0), (1, 0), (2, 0), (3, 0), (4, 0), (5, 0)]
    );
}

#[test]
fn test_line_uses_current_color() {
    let mut fb = Framebuffer::new(8, 2);
    fb.set_current_color(0x00ABCDEF);
    fb.line((1, 1), (3, 1));
    assert_eq!(
        fb.buffer(),
        &vec![0, 0, 0, 0, 0, 0, 0, 0, 0, 0xABCDEF, 0xABCDEF, 0xABCDEF, 0, 0, 0, 0]
    );
}

#[test]
fn test_line_single_point() {
    assert_eq!(line_cells((3, 4), (3, 4)), vec![(3, 4)]);
}

#[test]
fn test_line_vertical() {
    assert_eq!(line_cells((2, 1), (2, 4)), vec![(2, 1), (2, 2), (2, 3), (2, 4)]);
    assert_eq!(line_cells((2, 4), (2, 1)), vec![(2, 1), (2, 2), (2, 3), (2, 4)]);
}

#[test]
fn test_line_diagonal() {
    assert_eq!(line_cells((0, 0), (3, 3)), vec![(0, 0), (1, 1), (2, 2), (3, 3)]);
    assert_eq!(line_cells((3, 0), (0, 3)), vec![(3, 0), (2, 1), (1, 2), (0, 3)]);
}

#[test]
fn test_line_shallow_slope() {
    // Five steps along x, two along y: rows change where the exact line
    // is nearer to the next row.
    assert_eq!(
        line_cells((0, 0), (5, 2)),
        vec![(0, 0), (1, 0), (2, 1), (3, 1), (4, 2), (5, 2)]
    );
}

#[test]
fn test_line_steep_slope() {
    assert_eq!(
        line_cells((0, 0), (2, 5)),
        vec![(0, 0), (0, 1), (1, 2), (1, 3), (2, 4), (2, 5)]
    );
}

#[test]
fn test_line_tie_rounds_away_from_start() {
    assert_eq!(line_cells((0, 0), (2, 1)), vec![(0, 0), (1, 1), (2, 1)]);
    assert_eq!(line_cells((2, 1), (0, 0)), vec![(0, 0), (1, 0), (2, 1)]);
}

#[test]
fn test_line_symmetric_without_tie() {
    let ends: [((isize, isize), (isize, isize)); 8] = [
        ((0, 0), (5, 0)),
        ((0, 0), (5, 2)),
        ((1, 7), (10, 4)),
        ((3, 3), (3, 12)),
        ((0, 0), (7, 7)),
        ((10, 2), (3, 15)),
        ((0, 0), (6, 2)),
        ((15, 15), (0, 14)),
    ];
    for &(a, b) in &ends {
        assert_eq!(line_cells(a, b), line_cells(b, a));
    }
}

#[test]
fn test_line_includes_both_ends_and_has_no_gaps() {
    for &(a, b) in &[((0isize, 0isize), (13isize, 5isize)), ((14, 1), (2, 15)), ((7, 0), (6, 15))] {
        let mut fb = Framebuffer::new(16, 16);
        fb.line(a, b);
        assert_ne!(fb.get_color(a.0 as usize, a.1 as usize), 0);
        assert_ne!(fb.get_color(b.0 as usize, b.1 as usize), 0);
        let cells = drawn(&fb);
        let longer = std::cmp::max((a.0 - b.0).abs(), (a.1 - b.1).abs()) as usize;
        assert_eq!(cells.len(), longer + 1);
        for &(x, y) in &cells {
            if (x as isize, y as isize) == a || (x as isize, y as isize) == b {
                continue;
            }
            let neighbours = cells
                .iter()
                .filter(|&&(u, v)| {
                    (u, v) != (x, y)
                        && (u as isize - x as isize).abs() <= 1
                        && (v as isize - y as isize).abs() <= 1
                })
                .count();
            assert!(neighbours >= 2);
        }
    }
}

#[test]
fn test_line_clipped_at_the_border() {
    let mut fb = Framebuffer::new(4, 4);
    fb.line((-2, 1), (6, 1));
    assert_eq!(drawn(&fb), vec![(0, 1), (1, 1), (2, 1), (3, 1)]);
    let mut fb = Framebuffer::new(4, 4);
    fb.line((-3, -3), (-1, -1));
    assert_eq!(drawn(&fb), vec![]);
    let mut fb = Framebuffer::new(4, 4);
    fb.line((2, -2), (2, 9));
    assert_eq!(drawn(&fb), vec![(2, 0), (2, 1), (2, 2), (2, 3)]);
}

#[test]
fn test_line_keeps_other_cells() {
    let mut fb = Framebuffer::new(4, 2);
    fb.set_background_color(5);
    fb.clear();
    fb.set_current_color(9);
    fb.line((0, 0), (3, 1));
    assert_eq!(fb.buffer(), &vec![9, 9, 5, 5, 5, 5, 9, 9]);
}
