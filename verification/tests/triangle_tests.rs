use spaceship::triangle::{calculate_bounding_box, scan_pixels, triangle, BoundingBox, ScreenVertex};

fn vertex(x: i32, y: i32) -> ScreenVertex {
    ScreenVertex { floor_x: x, floor_y: y, ceil_x: x + 1, ceil_y: y + 1, finite: true }
}

fn exact_vertex(x: i32, y: i32) -> ScreenVertex {
    ScreenVertex { floor_x: x, floor_y: y, ceil_x: x, ceil_y: y, finite: true }
}

#[test]
fn bounding_box_covers_vertices() {
    let bb = calculate_bounding_box(&vertex(10, 20), &vertex(30, 25), &vertex(15, 40));
    assert_eq!(bb, BoundingBox { min_x: 10, min_y: 20, max_x: 31, max_y: 41 });
}

#[test]
fn bounding_box_is_clamped_to_screen() {
    let bb = calculate_bounding_box(&vertex(-50, -20), &vertex(900, 300), &vertex(100, 700));
    assert_eq!(bb, BoundingBox { min_x: 0, min_y: 0, max_x: 800, max_y: 600 });
}

#[test]
fn bounding_box_entirely_right_of_screen_collapses() {
    let bb = calculate_bounding_box(&vertex(900, 10), &vertex(950, 20), &vertex(1000, 30));
    assert_eq!(bb, BoundingBox { min_x: 800, min_y: 10, max_x: 800, max_y: 31 });
}

#[test]
fn scan_visits_rows_then_columns() {
    let bb = BoundingBox { min_x: 1, min_y: 2, max_x: 3, max_y: 3 };
    assert_eq!(scan_pixels(&bb), vec![(1, 2), (2, 2), (3, 2), (1, 3), (2, 3), (3, 3)]);
}

#[test]
fn scan_of_single_pixel_and_of_empty_box() {
    let one = BoundingBox { min_x: 4, min_y: 4, max_x: 4, max_y: 4 };
    assert_eq!(scan_pixels(&one), vec![(4, 4)]);
    let empty_x = BoundingBox { min_x: 5, min_y: 0, max_x: 4, max_y: 3 };
    assert_eq!(scan_pixels(&empty_x), Vec::<(i32, i32)>::new());
    let empty_y = BoundingBox { min_x: 0, min_y: 5, max_x: 3, max_y: 4 };
    assert_eq!(scan_pixels(&empty_y), Vec::<(i32, i32)>::new());
}

#[test]
fn scan_visits_each_pixel_once() {
    let bb = BoundingBox { min_x: -2, min_y: 7, max_x: 5, max_y: 11 };
    let s = scan_pixels(&bb);
    assert_eq!(s.len(), 8 * 5);
    for y in 7..=11 {
        for x in -2..=5 {
            assert_eq!(s.iter().filter(|p| **p == (x, y)).count(), 1);
        }
    }
}

#[test]
fn triangle_candidates_are_its_box() {
    let c = triangle(&exact_vertex(2, 1), &exact_vertex(4, 1), &exact_vertex(2, 3), true);
    let expected: Vec<(i32, i32)> = vec![
        (2, 1), (3, 1), (4, 1),
        (2, 2), (3, 2), (4, 2),
        (2, 3), (3, 3), (4, 3),
    ];
    assert_eq!(c, expected);
}

#[test]
fn triangle_with_non_finite_vertex_is_skipped() {
    let mut bad = vertex(5, 5);
    bad.finite = false;
    assert!(triangle(&vertex(0, 0), &vertex(10, 0), &bad, true).is_empty());
    assert!(triangle(&bad, &vertex(10, 0), &vertex(0, 10), true).is_empty());
}

#[test]
fn triangle_without_area_is_skipped() {
    assert!(triangle(&vertex(0, 0), &vertex(10, 0), &vertex(0, 10), false).is_empty());
}

#[test]
fn thin_triangle_is_skipped() {
    // all three vertices on one column: the box has no width
    let c = triangle(&exact_vertex(5, 0), &exact_vertex(5, 3), &exact_vertex(5, 9), true);
    assert!(c.is_empty());
    // all three on one row
    let c = triangle(&exact_vertex(0, 7), &exact_vertex(3, 7), &exact_vertex(9, 7), true);
    assert!(c.is_empty());
}

#[test]
fn triangle_off_screen_is_skipped() {
    assert!(triangle(&vertex(900, 10), &vertex(950, 20), &vertex(1000, 30), true).is_empty());
    assert!(triangle(&vertex(-90, -10), &vertex(-50, -20), &vertex(-10, -30), true).is_empty());
}

#[test]
fn triangle_candidates_stay_on_screen() {
    let c = triangle(&vertex(780, 590), &vertex(900, 650), &vertex(760, 700), true);
    assert!(!c.is_empty());
    for (x, y) in &c {
        assert!(*x >= 760 && *x <= 800);
        assert!(*y >= 590 && *y <= 600);
    }
    assert_eq!(c.len(), 41 * 11);
}
