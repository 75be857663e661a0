
fn pixels(v: &[(usize, usize)]) -> Vec<(usize, usize)> {
    v.to_vec()
}

#[test]
fn shallow_line_rounds_minor_axis() {
    assert_eq!(spaceship::line::line(0, 0, 3, 1, 10, 10), pixels(&[(0, 0), (1, 0), (2, 1), (3, 1)]));
}

#[test]
fn shallow_line_ties_round_towards_start() {
    assert_eq!(
        spaceship::line::line(0, 0, 4, 1, 10, 10),
        pixels(&[(0, 0), (1, 0), (2, 0), (3, 1), (4, 1)])
    );
}

#[test]
fn reversed_shallow_line_is_not_the_mirror_image() {
    assert_eq!(
        spaceship::line::line(4, 1, 0, 0, 10, 10),
        pixels(&[(4, 1), (3, 1), (2, 1), (1, 0), (0, 0)])
    );
}

#[test]
fn steep_line_rounds_minor_axis() {
    assert_eq!(spaceship::line::line(0, 0, 1, 3, 10, 10), pixels(&[(0, 0), (0, 1), (1, 2), (1, 3)]));
}

#[test]
fn vertical_line() {
    assert_eq!(spaceship::line::line(2, 0, 2, 3, 10, 10), pixels(&[(2, 0), (2, 1), (2, 2), (2, 3)]));
}

#[test]
fn horizontal_line_right_to_left() {
    assert_eq!(spaceship::line::line(3, 4, 0, 4, 10, 10), pixels(&[(3, 4), (2, 4), (1, 4), (0, 4)]));
}

#[test]
fn diagonal_line() {
    assert_eq!(spaceship::line::line(0, 0, 3, 3, 10, 10), pixels(&[(0, 0), (1, 1), (2, 2), (3, 3)]));
    assert_eq!(spaceship::line::line(3, 0, 0, 3, 10, 10), pixels(&[(3, 0), (2, 1), (1, 2), (0, 3)]));
}

#[test]
fn single_point_line() {
    assert_eq!(spaceship::line::line(5, 5, 5, 5, 10, 10), pixels(&[(5, 5)]));
    assert_eq!(spaceship::line::line(10, 5, 10, 5, 10, 10), pixels(&[]));
}

#[test]
fn line_is_clipped_to_frame() {
    assert_eq!(spaceship::line::line(-2, 0, 2, 0, 2, 5), pixels(&[(0, 0), (1, 0)]));
    assert_eq!(spaceship::line::line(0, -3, 0, 3, 5, 2), pixels(&[(0, 0), (0, 1)]));
}

#[test]
fn line_on_empty_frame_draws_nothing() {
    assert_eq!(spaceship::line::line(0, 0, 4, 4, 0, 10), pixels(&[]));
    assert_eq!(spaceship::line::line(0, 0, 4, 4, -5, -5), pixels(&[]));
}

#[test]
fn line_far_off_frame_draws_nothing() {
    assert_eq!(spaceship::line::line(-1000, -1000, -10, -500, 800, 600), pixels(&[]));
}

#[test]
fn line_with_extreme_coordinates_is_clipped() {
    let p = spaceship::line::line(-1000000, 0, 1000000, 0, 3, 1);
    assert_eq!(p, pixels(&[(0, 0), (1, 0), (2, 0)]));
}

fn check_laws(x0: i32, y0: i32, x1: i32, y1: i32) {
    // a frame large enough to hold the whole segment
    let off_x = x0.min(x1);
    let off_y = y0.min(y1);
    let (ax, ay, bx, by) = (x0 - off_x, y0 - off_y, x1 - off_x, y1 - off_y);
    let p = spaceship::line::line(ax, ay, bx, by, 1000, 1000);
    let dx = (bx - ax).abs() as i64;
    let dy = (by - ay).abs() as i64;
    let m = dx.max(dy);
    assert_eq!(p.len() as i64, m + 1);
    assert_eq!(p[0], (ax as usize, ay as usize));
    assert_eq!(*p.last().unwrap(), (bx as usize, by as usize));
    for w in p.windows(2) {
        let ddx = (w[1].0 as i64 - w[0].0 as i64).abs();
        let ddy = (w[1].1 as i64 - w[0].1 as i64).abs();
        assert!(ddx <= 1 && ddy <= 1);
        assert!(ddx + ddy >= 1);
        if dx > dy {
            assert_eq!(ddx, 1);
        } else {
            assert_eq!(ddy, 1);
        }
    }
    for q in &p {
        let px = q.0 as i64 - ax as i64;
        let py = q.1 as i64 - ay as i64;
        let cross = px * (by - ay) as i64 - py * (bx - ax) as i64;
        assert!(2 * cross.abs() <= m);
        assert!(q.0 as i32 >= ax.min(bx) && q.0 as i32 <= ax.max(bx));
        assert!(q.1 as i32 >= ay.min(by) && q.1 as i32 <= ay.max(by));
    }
}

#[test]
fn line_laws_hold_on_samples() {
    check_laws(0, 0, 17, 5);
    check_laws(17, 5, 0, 0);
    check_laws(3, 40, 9, 2);
    check_laws(0, 0, 0, 0);
    check_laws(5, 5, 12, 12);
    check_laws(-7, 3, 20, -11);
    check_laws(100, 0, 0, 99);
}

#[test]
fn segment_inside_frame_is_drawn_whole() {
    let p = spaceship::line::line(1, 1, 8, 6, 10, 10);
    assert_eq!(p.len(), 8);
    assert_eq!(p[0], (1, 1));
    assert_eq!(p[7], (8, 6));
}
