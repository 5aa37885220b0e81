use softraster::fill::draw_fill_triangle;

fn all_orders(v: [(i32, i32); 3]) -> Vec<Vec<(i32, i32, i32)>> {
    let orders = [
        [0, 1, 2],
        [0, 2, 1],
        [1, 0, 2],
        [1, 2, 0],
        [2, 0, 1],
        [2, 1, 0],
    ];
    orders
        .iter()
        .map(|o| {
            draw_fill_triangle(
                v[o[0]].0, v[o[0]].1, v[o[1]].0, v[o[1]].1, v[o[2]].0, v[o[2]].1,
            )
        })
        .collect()
}

#[test]
fn fill_right_triangle_rows() {
    let s = draw_fill_triangle(0, 0, 4, 0, 0, 4);
    assert_eq!(s, vec![(0, 0, 4), (1, 0, 3), (2, 0, 2), (3, 0, 1), (4, 0, 0)]);
}

#[test]
fn fill_right_triangle_any_order() {
    let results = all_orders([(0, 0), (4, 0), (0, 4)]);
    for r in results.iter() {
        assert_eq!(*r, results[0]);
    }
}

#[test]
fn fill_split_triangle_rows() {
    let s = draw_fill_triangle(0, 0, 4, 2, 0, 4);
    assert_eq!(s, vec![(0, 0, 1), (1, 0, 3), (2, 0, 4), (3, 0, 2), (4, 0, 0)]);
}

#[test]
fn fill_split_triangle_any_order() {
    let results = all_orders([(0, 0), (4, 2), (0, 4)]);
    for r in results.iter() {
        assert_eq!(*r, results[0]);
    }
}

#[test]
fn fill_split_shared_row_once() {
    // The split at the middle vertex's row must neither skip nor repeat a row.
    let s = draw_fill_triangle(0, 0, 4, 2, 0, 4);
    let ys: Vec<i32> = s.iter().map(|span| span.0).collect();
    assert_eq!(ys, vec![0, 1, 2, 3, 4]);
}

#[test]
fn fill_flat_top_rows() {
    let s = draw_fill_triangle(1, 5, 7, 5, 4, 9);
    assert_eq!(s, vec![(5, 1, 7), (6, 1, 7), (7, 2, 6), (8, 3, 5), (9, 4, 4)]);
}

#[test]
fn fill_flat_top_any_order() {
    let results = all_orders([(1, 5), (7, 5), (4, 9)]);
    for r in results.iter() {
        assert_eq!(*r, results[0]);
    }
}

#[test]
fn fill_degenerate_single_pixel() {
    let s = draw_fill_triangle(5, 7, 5, 7, 5, 7);
    assert_eq!(s, vec![(7, 5, 5)]);
}

#[test]
fn fill_degenerate_horizontal() {
    let s = draw_fill_triangle(0, 0, 4, 0, 2, 0);
    assert_eq!(s, vec![(0, 0, 4)]);
}

#[test]
fn fill_degenerate_vertical() {
    let s = draw_fill_triangle(2, 0, 2, 3, 2, 5);
    assert_eq!(
        s,
        vec![(0, 2, 2), (1, 2, 2), (2, 2, 2), (3, 2, 2), (4, 2, 2), (5, 2, 2)]
    );
}

#[test]
fn fill_rows_are_contiguous() {
    let tris = [
        [(0, 0), (10, 3), (-4, 8)],
        [(5, 5), (5, 5), (9, 9)],
        [(-3, -3), (3, -3), (0, 4)],
    ];
    for v in tris.iter() {
        let s = draw_fill_triangle(v[0].0, v[0].1, v[1].0, v[1].1, v[2].0, v[2].1);
        let ymin = v.iter().map(|p| p.1).min().unwrap();
        let ymax = v.iter().map(|p| p.1).max().unwrap();
        assert_eq!(s.len() as i32, ymax - ymin + 1);
        for (r, span) in s.iter().enumerate() {
            assert_eq!(span.0, ymin + r as i32);
            assert!(span.1 <= span.2);
        }
    }
}
