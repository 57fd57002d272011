use fluid_sim::line::{bresenham_line, draw_line_with_color};

#[test]
fn bresenham_line_shallow() {
    assert_eq!(bresenham_line(0, 0, 3, 1), vec![(0, 0), (1, 0), (2, 1), (3, 1)]);
}

#[test]
fn bresenham_line_backwards() {
    assert_eq!(bresenham_line(5, 5, 1, 3), vec![(5, 5), (4, 5), (3, 4), (2, 4), (1, 3)]);
}

#[test]
fn bresenham_line_vertical_and_diagonal() {
    assert_eq!(bresenham_line(2, 2, 2, 6), vec![(2, 2), (2, 3), (2, 4), (2, 5), (2, 6)]);
    assert_eq!(bresenham_line(0, 0, 4, 4), vec![(0, 0), (1, 1), (2, 2), (3, 3), (4, 4)]);
    assert_eq!(
        bresenham_line(0, 0, 6, 4),
        vec![(0, 0), (1, 1), (2, 1), (3, 2), (4, 3), (5, 3), (6, 4)]
    );
}

#[test]
fn bresenham_line_single_point() {
    assert_eq!(bresenham_line(7, 9, 7, 9), vec![(7, 9)]);
}

#[test]
fn bresenham_line_ends_connected_and_length() {
    for &(x0, y0, x1, y1) in &[(0usize, 0usize, 17usize, 5usize), (40, 3, 2, 30), (9, 9, 9, 0), (100, 50, 0, 50)] {
        let pts = bresenham_line(x0, y0, x1, y1);
        assert_eq!(pts[0], (x0, y0));
        assert_eq!(*pts.last().unwrap(), (x1, y1));
        let dx = (x1 as isize - x0 as isize).abs();
        let dy = (y1 as isize - y0 as isize).abs();
        assert_eq!(pts.len() as isize, dx.max(dy) + 1);
        for w in pts.windows(2) {
            let ddx = (w[1].0 as isize - w[0].0 as isize).abs();
            let ddy = (w[1].1 as isize - w[0].1 as isize).abs();
            assert!(ddx <= 1 && ddy <= 1 && ddx + ddy >= 1);
        }
    }
}

#[test]
fn draw_line_with_color_marks_the_line() {
    let width = 8;
    let mut buffer = vec![0u32; width * width];
    draw_line_with_color(&mut buffer, width, 5, 5, 1, 3, 7);
    let expected = [(5usize, 5usize), (4, 4), (3, 4), (2, 3), (1, 3)];
    for y in 0..width {
        for x in 0..width {
            let want = if expected.contains(&(x, y)) { 7 } else { 0 };
            assert_eq!(buffer[y * width + x], want);
        }
    }
}

#[test]
fn draw_line_with_color_clips_to_window() {
    let width = 4;
    let mut buffer = vec![1u32; width * width];
    draw_line_with_color(&mut buffer, width, 0, 0, 6, 4, 9);
    // cells (0,0), (1,1), (2,1), (3,2) lie in the 4 x 4 window
    let mut painted = vec![];
    for y in 0..width {
        for x in 0..width {
            if buffer[y * width + x] == 9 {
                painted.push((x, y));
            }
        }
    }
    assert_eq!(painted, vec![(0, 0), (1, 1), (2, 1), (3, 2)]);
}
