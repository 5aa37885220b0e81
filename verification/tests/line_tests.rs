use softraster::line::{draw_line, pixel_line};

fn as_set(pixels: &[(i32, i32)]) -> Vec<(i32, i32)> {
    let mut v = pixels.to_vec();
    v.sort();
    v.dedup();
    v
}

#[test]
fn line_shallow_pixels() {
    let p = draw_line(0, 0, 2, 1);
    assert_eq!(p, vec![(0, 0), (1, 0), (2, 1)]);
}

#[test]
fn line_single_pixel() {
    assert_eq!(draw_line(4, 4, 4, 4), vec![(4, 4)]);
}

#[test]
fn line_horizontal() {
    let p = draw_line(0, 0, 5, 0);
    assert_eq!(p, vec![(0, 0), (1, 0), (2, 0), (3, 0), (4, 0), (5, 0)]);
}

#[test]
fn line_vertical_downward_walk() {
    let p = draw_line(3, 7, 3, 3);
    assert_eq!(p, vec![(3, 7), (3, 6), (3, 5), (3, 4), (3, 3)]);
}

#[test]
fn line_diagonal() {
    assert_eq!(draw_line(0, 0, 3, 3), vec![(0, 0), (1, 1), (2, 2), (3, 3)]);
    assert_eq!(draw_line(0, 0, -3, 3), vec![(0, 0), (-1, 1), (-2, 2), (-3, 3)]);
}

#[test]
fn line_steep_pixels() {
    let p = draw_line(1, 1, 4, 9);
    assert_eq!(
        p,
        vec![
            (1, 1),
            (1, 2),
            (1, 3),
            (2, 4),
            (2, 5),
            (2, 6),
            (3, 7),
            (3, 8),
            (4, 9)
        ]
    );
}

#[test]
fn line_endpoints_included() {
    let cases = [
        (0, 0, 10, 3),
        (-5, 2, 7, -9),
        (100, -40, -3, -40),
        (8, 8, 8, -1),
        (0, 0, 0, 0),
    ];
    for &(x1, y1, x2, y2) in cases.iter() {
        let p = draw_line(x1, y1, x2, y2);
        assert_eq!(p[0], (x1, y1));
        assert_eq!(p[p.len() - 1], (x2, y2));
    }
}

#[test]
fn line_connected_eight_way() {
    let cases = [(0, 0, 10, 3), (-5, 2, 7, -9), (3, 3, -6, 14), (2, 2, 9, 9)];
    for &(x1, y1, x2, y2) in cases.iter() {
        let p = draw_line(x1, y1, x2, y2);
        for w in p.windows(2) {
            let (ax, ay) = w[0];
            let (bx, by) = w[1];
            assert!((bx - ax).abs() <= 1 && (by - ay).abs() <= 1);
            assert!((ax, ay) != (bx, by));
        }
    }
}

#[test]
fn line_direction_symmetric_axis_aligned() {
    assert_eq!(as_set(&draw_line(0, 0, 5, 0)), as_set(&draw_line(5, 0, 0, 0)));
    assert_eq!(as_set(&draw_line(3, 7, 3, 3)), as_set(&draw_line(3, 3, 3, 7)));
}

#[test]
fn line_direction_symmetric_diagonal() {
    assert_eq!(as_set(&draw_line(0, 0, 4, 4)), as_set(&draw_line(4, 4, 0, 0)));
    assert_eq!(
        as_set(&draw_line(2, -1, -3, 4)),
        as_set(&draw_line(-3, 4, 2, -1))
    );
}

#[test]
fn line_reverse_shallow_pixels() {
    // For a general (non-axis-aligned, non-diagonal) line the rounding of the
    // minor axis follows the walk direction, so the reversed walk may round
    // the middle pixels to the other side.
    let p = draw_line(2, 1, 0, 0);
    assert_eq!(p, vec![(2, 1), (1, 1), (0, 0)]);
}

#[test]
fn pixel_line_fresh_table() {
    let mut w: Vec<(i32, i32)> = Vec::new();
    pixel_line(&mut w, 1, 1, 4, 9);
    assert_eq!(
        w,
        vec![
            (1, 1),
            (1, 1),
            (1, 1),
            (2, 2),
            (2, 2),
            (2, 2),
            (3, 3),
            (3, 3),
            (4, 4)
        ]
    );
}

#[test]
fn pixel_line_widens_existing_rows() {
    let mut w: Vec<(i32, i32)> = vec![(10, 10)];
    pixel_line(&mut w, 0, 0, 2, 1);
    assert_eq!(w, vec![(0, 10), (2, 2)]);
}

#[test]
fn pixel_line_two_edges_make_triangle_rows() {
    let mut w: Vec<(i32, i32)> = Vec::new();
    pixel_line(&mut w, 0, 0, 0, 4);
    pixel_line(&mut w, 4, 0, 0, 4);
    assert_eq!(w, vec![(0, 4), (0, 3), (0, 2), (0, 1), (0, 0)]);
}

#[test]
fn pixel_line_horizontal_single_row() {
    let mut w: Vec<(i32, i32)> = Vec::new();
    pixel_line(&mut w, 7, 2, 3, 2);
    assert_eq!(w, vec![(3, 7)]);
}
