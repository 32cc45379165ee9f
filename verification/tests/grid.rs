//! The grid: where keys point on the screen.

use omakeys::grid::{build_grid, cells_in_region, find_cell};
use omakeys::units::SUBPIXELS;

fn px(subpixels: i64) -> f64 {
    subpixels as f64 / SUBPIXELS as f64
}

#[test]
fn a_is_middle_left() {
    let cells = build_grid(1920, 1080);
    let region = cells_in_region(&cells, 'a');
    assert!(region.iter().all(|c| px(c.x) < 1920.0 / 5.0));
    assert!(region.iter().all(|c| px(c.y) >= 1080.0 / 3.0 && px(c.y) < 2.0 * 1080.0 / 3.0));
}

#[test]
fn p_is_upper_right_within_its_region() {
    let cells = build_grid(1920, 1080);
    let cell = find_cell(&cells, 'a', 'p').unwrap();
    let region = cells_in_region(&cells, 'a');
    let max_x = region.iter().map(|c| px(c.x)).fold(f64::MIN, f64::max);
    let min_y = region.iter().map(|c| px(c.y)).fold(f64::MAX, f64::min);
    assert_eq!(px(cell.x), max_x);
    assert_eq!(px(cell.y), min_y);
}

#[test]
fn grid_has_225_cells_covering_full_area() {
    let cells = build_grid(1920, 1080);
    assert_eq!(cells.len(), 225);
    let max_x = cells.iter().map(|c| px(c.x + c.w)).fold(f64::MIN, f64::max);
    let max_y = cells.iter().map(|c| px(c.y + c.h)).fold(f64::MIN, f64::max);
    assert!((max_x - 1920.0).abs() < 1e-6);
    assert!((max_y - 1080.0).abs() < 1e-6);
}

#[test]
fn cells_lie_where_their_keys_lie() {
    let cells = build_grid(1920, 1080);
    let qp = find_cell(&cells, 'q', 'p').unwrap();
    let wy = find_cell(&cells, 'w', 'y').unwrap();
    assert!(qp.x + qp.w <= wy.x);
    assert_eq!(qp.y, wy.y);
    let below = find_cell(&cells, 'a', 'p').unwrap();
    assert!(qp.y + qp.h <= below.y);
    assert_eq!(qp.x, below.x);
}
