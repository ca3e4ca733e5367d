use ram_map::hilbert::{d2xy, xy2d};

#[test]
fn test_roundtrip() {
    let order = 4;
    let n = 1u32 << order;
    for d in 0..(n * n) {
        let (x, y) = d2xy(order, d);
        let d2 = xy2d(order, x, y);
        assert_eq!(d, d2, "roundtrip failed for d={d}: ({x},{y}) -> {d2}");
    }
}

#[test]
fn test_adjacency() {
    // Adjacent d values should produce adjacent (x,y) coordinates
    let order = 4;
    let n = 1u32 << order;
    for d in 0..(n * n - 1) {
        let (x1, y1) = d2xy(order, d);
        let (x2, y2) = d2xy(order, d + 1);
        let dist =
            (x1 as i32 - x2 as i32).unsigned_abs() + (y1 as i32 - y2 as i32).unsigned_abs();
        assert_eq!(
            dist,
            1,
            "d={d} and d+1={} are not adjacent: ({x1},{y1})->({x2},{y2})",
            d + 1
        );
    }
}

#[test]
fn order_one_curve_visits_cells_in_u_shape() {
    // Transposed orientation: (0,0), (1,0), (1,1), (0,1).
    assert_eq!(d2xy(1, 0), (0, 0));
    assert_eq!(d2xy(1, 1), (1, 0));
    assert_eq!(d2xy(1, 2), (1, 1));
    assert_eq!(d2xy(1, 3), (0, 1));
}

#[test]
fn curve_starts_at_origin_and_ends_on_the_first_column() {
    for order in 0..10u32 {
        let n = 1u32 << order;
        assert_eq!(d2xy(order, 0), (0, 0));
        assert_eq!(d2xy(order, n * n - 1), (0, n - 1));
    }
}

#[test]
fn order_zero_is_a_single_cell() {
    assert_eq!(d2xy(0, 0), (0, 0));
    assert_eq!(xy2d(0, 0, 0), 0);
    // Bits above the grid are ignored.
    assert_eq!(d2xy(0, 5), (0, 0));
}

#[test]
fn cell_roundtrip_order_five() {
    let order = 5;
    let n = 1u32 << order;
    for x in 0..n {
        for y in 0..n {
            let d = xy2d(order, x, y);
            assert!(d < n * n);
            assert_eq!(d2xy(order, d), (x, y));
        }
    }
}

#[test]
fn distances_beyond_the_grid_wrap_around() {
    let order = 3;
    assert_eq!(d2xy(order, 64 + 10), d2xy(order, 10));
}

#[test]
fn largest_order_for_xy2d() {
    let order = 16;
    let n = 1u32 << order;
    assert_eq!(xy2d(order, 0, n - 1), u32::MAX);
    assert_eq!(d2xy(order, u32::MAX), (0, n - 1));
}

#[test]
fn cells_stay_inside_the_grid() {
    for order in 0..8u32 {
        let n = 1u32 << order;
        for d in 0..(n * n + 3) {
            let (x, y) = d2xy(order, d);
            assert!(x < n && y < n);
        }
    }
}
