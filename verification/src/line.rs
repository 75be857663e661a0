use vstd::prelude::*;

verus! {

/// Distance between two grid coordinates.
pub open spec fn abs_diff(a: int, b: int) -> int {
    if a <= b { b - a } else { a - b }
}

/// The coordinate `n` steps from `a` in the direction of `b` (backwards when
/// `a == b`, as the drawing loop's step sign is negative then).
pub open spec fn advance(a: int, b: int, n: int) -> int {
    if a < b { a + n } else { a - n }
}

/// Ceiling of `a / b` for a positive divisor.
pub open spec fn ceil_div(a: int, b: int) -> int
    recommends b > 0,
{
    (a + b - 1) / b
}

/// Number of pixels the segment from `(x0, y0)` to `(x1, y1)` covers.
pub open spec fn line_len(x0: int, y0: int, x1: int, y1: int) -> int {
    let dx = abs_diff(x0, x1);
    let dy = abs_diff(y0, y1);
    if dx > dy { dx + 1 } else { dy + 1 }
}

/// The `i`-th pixel of the segment: `i` steps along the longer axis, and along
/// the shorter axis the ideal coordinate rounded to the nearest integer, a
/// tie going back towards the start point.
pub open spec fn line_point(x0: int, y0: int, x1: int, y1: int, i: int) -> (int, int) {
    let dx = abs_diff(x0, x1);
    let dy = abs_diff(y0, y1);
    if dx > dy {
        (advance(x0, x1, i), advance(y0, y1, ceil_div(i * dy - dx / 2, dx)))
    } else if dy == 0 {
        (x0, y0)
    } else {
        (advance(x0, x1, ceil_div(i * dx - dy / 2, dy)), advance(y0, y1, i))
    }
}

/// All pixels of the segment, from `(x0, y0)` to `(x1, y1)`.
pub open spec fn line_path(x0: int, y0: int, x1: int, y1: int) -> Seq<(int, int)> {
    Seq::new(line_len(x0, y0, x1, y1) as nat, |i: int| line_point(x0, y0, x1, y1, i))
}

/// Whether a pixel lies on a `width` x `height` frame.
pub open spec fn in_frame(p: (int, int), width: int, height: int) -> bool {
    0 <= p.0 < width && 0 <= p.1 < height
}

/// The pixels of the segment that lie on the frame, in drawing order.
pub open spec fn visible_line(x0: int, y0: int, x1: int, y1: int, width: int, height: int) -> Seq<(int, int)> {
    line_path(x0, y0, x1, y1).filter(|p: (int, int)| in_frame(p, width, height))
}

/// Pixel coordinates as mathematical integers.
pub open spec fn pixels_view(s: Seq<(usize, usize)>) -> Seq<(int, int)> {
    s.map_values(|p: (usize, usize)| (p.0 as int, p.1 as int))
}

/// The ceiling of `a / d` is the integer `q` with `a <= q * d < a + d`.
proof fn lemma_ceil_div_unique(a: int, d: int, q: int)
    requires
        d > 0,
        a <= q * d,
        q * d < a + d,
    ensures
        ceil_div(a, d) == q,
{
    let r = a + d - 1 - q * d;
    vstd::arithmetic::div_mod::lemma_fundamental_div_mod_converse(a + d - 1, d, q, r);
}

/// If `d * t` lies strictly between `-d` and `d` then `t` is zero.
proof fn lemma_small_multiple(d: int, t: int)
    requires
        d > 0,
        -d < d * t < d,
    ensures
        t == 0,
{
    if t >= 1 {
        assert(d * t >= d) by (nonlinear_arith)
            requires
                d > 0,
                t >= 1,
        ;
    } else if t <= -1 {
        assert(d * t <= -d) by (nonlinear_arith)
            requires
                d > 0,
                t <= -1,
        ;
    }
}

/// Loop state of the drawing walk after `cx` steps along x and `cy` along y,
/// with error term `err`, for an x-major segment.
pub open spec fn x_major_state(dx: int, dy: int, cx: int, cy: int, err: int) -> bool {
    &&& dx > dy >= 0
    &&& 0 <= cx <= dx
    &&& 0 <= cy <= dy
    &&& err == dx / 2 - cx * dy + cy * dx
    &&& 0 <= err < dx
}

/// Loop state of the drawing walk for a segment that is not x-major.
pub open spec fn y_major_state(dx: int, dy: int, cx: int, cy: int, err: int) -> bool {
    &&& 0 <= dx <= dy
    &&& 0 <= cx <= dx
    &&& 0 <= cy <= dy
    &&& err == -(dy / 2) - cx * dy + cy * dx
    &&& dy == 0 ==> err == 0
    &&& dy > 0 ==> -dy < err <= 0
}

/// In an x-major walk the minor count is the rounded ideal one, and the walk
/// reaches the end of both axes together.
proof fn lemma_x_major(dx: int, dy: int, cx: int, cy: int, err: int)
    requires
        x_major_state(dx, dy, cx, cy, err),
    ensures
        cy == ceil_div(cx * dy - dx / 2, dx),
        cx == dx ==> cy == dy,
        cx < dx && err < dy ==> cy < dy,
{
    lemma_ceil_div_unique(cx * dy - dx / 2, dx, cy);
    if cx == dx {
        assert(-dx < dx * (cy - dy) < dx) by (nonlinear_arith)
            requires
                err == dx / 2 - dx * dy + cy * dx,
                0 <= err < dx,
                dx > 0,
        ;
        lemma_small_multiple(dx, cy - dy);
    }
    if cx < dx && cy == dy {
        assert(err >= dy) by (nonlinear_arith)
            requires
                err == dx / 2 - cx * dy + dy * dx,
                cx < dx,
                dy >= 0,
                dx / 2 >= 0,
        ;
    }
}

/// In a y-major walk the minor count is the rounded ideal one, and the walk
/// reaches the end of both axes together.
proof fn lemma_y_major(dx: int, dy: int, cx: int, cy: int, err: int)
    requires
        y_major_state(dx, dy, cx, cy, err),
        dy > 0,
    ensures
        cx == ceil_div(cy * dx - dy / 2, dy),
        cy == dy ==> cx == dx,
        cy < dy && err > -dx ==> cx < dx,
{
    lemma_ceil_div_unique(cy * dx - dy / 2, dy, cx);
    if cy == dy {
        assert(-dy < dy * (dx - cx) < dy) by (nonlinear_arith)
            requires
                err == -(dy / 2) - cx * dy + dy * dx,
                -dy < err <= 0,
                dy > 0,
                0 <= dy / 2 < dy,
        ;
        lemma_small_multiple(dy, dx - cx);
    }
    if cy < dy && cx == dx {
        assert(err <= -dx) by (nonlinear_arith)
            requires
                err == -(dy / 2) - dx * dy + cy * dx,
                cy < dy,
                dx >= 0,
                dy / 2 >= 0,
        ;
    }
}


/// `ceil_div(a, d) * d` is the least multiple of `d` that is at least `a`.
proof fn lemma_ceil_div_bounds(a: int, d: int)
    requires
        d > 0,
    ensures
        a <= ceil_div(a, d) * d < a + d,
{
    vstd::arithmetic::div_mod::lemma_fundamental_div_mod(a + d - 1, d);
    assert(ceil_div(a, d) * d == d * ((a + d - 1) / d)) by (nonlinear_arith);
}

/// Raising the dividend by at most one divisor raises the ceiling by 0 or 1.
proof fn lemma_ceil_div_step(a: int, d: int, s: int)
    requires
        d > 0,
        0 <= s <= d,
    ensures
        0 <= ceil_div(a + s, d) - ceil_div(a, d) <= 1,
{
    lemma_ceil_div_bounds(a, d);
    lemma_ceil_div_bounds(a + s, d);
    let q = ceil_div(a, d);
    let q2 = ceil_div(a + s, d);
    assert(-d < (q2 - q) * d < 2 * d) by (nonlinear_arith)
        requires
            a <= q * d < a + d,
            a + s <= q2 * d < a + s + d,
            0 <= s <= d,
    ;
    let t = q2 - q;
    if t < 0 {
        assert(t * d <= -d) by (nonlinear_arith)
            requires
                t < 0,
                d > 0,
        ;
    }
    if t > 1 {
        assert(t * d >= 2 * d) by (nonlinear_arith)
            requires
                t > 1,
                d > 0,
        ;
    }
}

/// Offsets of pixel `i` from the start along x and along y, counted towards
/// the end point.
pub open spec fn line_offsets(x0: int, y0: int, x1: int, y1: int, i: int) -> (int, int) {
    let dx = abs_diff(x0, x1);
    let dy = abs_diff(y0, y1);
    if dx > dy {
        (i, ceil_div(i * dy - dx / 2, dx))
    } else if dy == 0 {
        (0, 0)
    } else {
        (ceil_div(i * dx - dy / 2, dy), i)
    }
}

/// Pixel `i` is the start moved by its offsets; along the major axis it has
/// moved by `i`, and along the minor axis by no more than the whole extent.
proof fn lemma_line_offsets(x0: int, y0: int, x1: int, y1: int, i: int)
    requires
        0 <= i < line_len(x0, y0, x1, y1),
    ensures
        ({
            let (ox, oy) = line_offsets(x0, y0, x1, y1, i);
            let dx = abs_diff(x0, x1);
            let dy = abs_diff(y0, y1);
            &&& line_point(x0, y0, x1, y1, i) == (advance(x0, x1, ox), advance(y0, y1, oy))
            &&& 0 <= ox <= dx
            &&& 0 <= oy <= dy
            &&& (dx > dy ==> ox == i)
            &&& (dx <= dy ==> oy == i)
            &&& (i == 0 ==> ox == 0 && oy == 0)
            &&& (i == line_len(x0, y0, x1, y1) - 1 ==> ox == dx && oy == dy)
        }),
{
    let dx = abs_diff(x0, x1);
    let dy = abs_diff(y0, y1);
    if dx > dy {
        let a = i * dy - dx / 2;
        lemma_ceil_div_bounds(a, dx);
        let q = ceil_div(a, dx);
        assert(0 <= i * dy <= dx * dy) by (nonlinear_arith)
            requires
                0 <= i <= dx,
                dy >= 0,
        ;
        assert(-dx < q * dx && q * dx < dx * dy + dx);
        if q < 0 {
            assert(q * dx <= -dx) by (nonlinear_arith)
                requires
                    q < 0,
                    dx > 0,
            ;
        }
        if q > dy {
            assert(q * dx >= dx * dy + dx) by (nonlinear_arith)
                requires
                    q > dy,
                    dx > 0,
            ;
        }
        if i == 0 {
            assert(i * dy == 0) by (nonlinear_arith)
                requires
                    i == 0,
            ;
            assert(a == -(dx / 2));
            assert(0 <= dx / 2 < dx);
            assert(0int * dx == 0);
            lemma_ceil_div_unique(a, dx, 0);
        }
        if i == dx {
            assert(i * dy == dx * dy) by (nonlinear_arith)
                requires
                    i == dx,
            ;
            assert(dy * dx == dx * dy) by (nonlinear_arith);
            lemma_ceil_div_unique(a, dx, dy);
        }
    } else if dy > 0 {
        let a = i * dx - dy / 2;
        lemma_ceil_div_bounds(a, dy);
        let q = ceil_div(a, dy);
        assert(0 <= i * dx <= dy * dx) by (nonlinear_arith)
            requires
                0 <= i <= dy,
                dx >= 0,
        ;
        if q < 0 {
            assert(q * dy <= -dy) by (nonlinear_arith)
                requires
                    q < 0,
                    dy > 0,
            ;
        }
        if q > dx {
            assert(q * dy >= dy * dx + dy) by (nonlinear_arith)
                requires
                    q > dx,
                    dy > 0,
            ;
        }
        if i == 0 {
            assert(i * dx == 0) by (nonlinear_arith)
                requires
                    i == 0,
            ;
            assert(a == -(dy / 2));
            assert(0 <= dy / 2 < dy);
            assert(0int * dy == 0);
            lemma_ceil_div_unique(a, dy, 0);
        }
        if i == dy {
            assert(i * dx == dy * dx) by (nonlinear_arith)
                requires
                    i == dy,
            ;
            assert(dx * dy == dy * dx) by (nonlinear_arith);
            lemma_ceil_div_unique(a, dy, dx);
        }
    }
}

/// The drawn segment starts at its first end point, finishes at its second,
/// and has one pixel per step along its longer axis.
pub proof fn lemma_line_endpoints(x0: int, y0: int, x1: int, y1: int)
    ensures
        line_path(x0, y0, x1, y1).len() == 1 + (if abs_diff(x0, x1) > abs_diff(y0, y1) {
            abs_diff(x0, x1)
        } else {
            abs_diff(y0, y1)
        }),
        line_path(x0, y0, x1, y1)[0] == (x0, y0),
        line_path(x0, y0, x1, y1).last() == (x1, y1),
{
    let n = line_len(x0, y0, x1, y1);
    lemma_line_offsets(x0, y0, x1, y1, 0);
    lemma_line_offsets(x0, y0, x1, y1, n - 1);
}

/// Every pixel of the drawn segment lies in the rectangle spanned by its end
/// points.
pub proof fn lemma_line_in_span(x0: int, y0: int, x1: int, y1: int, i: int)
    requires
        0 <= i < line_path(x0, y0, x1, y1).len(),
    ensures
        ({
            let p = line_path(x0, y0, x1, y1)[i];
            &&& (if x0 <= x1 { x0 <= p.0 <= x1 } else { x1 <= p.0 <= x0 })
            &&& (if y0 <= y1 { y0 <= p.1 <= y1 } else { y1 <= p.1 <= y0 })
        }),
{
    lemma_line_offsets(x0, y0, x1, y1, i);
}

/// Consecutive pixels of the drawn segment are distinct neighbours: each
/// coordinate changes by at most one, and the longer axis always advances.
pub proof fn lemma_line_connected(x0: int, y0: int, x1: int, y1: int, i: int)
    requires
        0 <= i,
        i + 1 < line_path(x0, y0, x1, y1).len(),
    ensures
        ({
            let p = line_path(x0, y0, x1, y1)[i];
            let q = line_path(x0, y0, x1, y1)[i + 1];
            &&& abs_diff(p.0, q.0) <= 1
            &&& abs_diff(p.1, q.1) <= 1
            &&& (abs_diff(x0, x1) > abs_diff(y0, y1) ==> abs_diff(p.0, q.0) == 1)
            &&& (abs_diff(x0, x1) <= abs_diff(y0, y1) ==> abs_diff(p.1, q.1) == 1)
        }),
{
    let dx = abs_diff(x0, x1);
    let dy = abs_diff(y0, y1);
    lemma_line_offsets(x0, y0, x1, y1, i);
    lemma_line_offsets(x0, y0, x1, y1, i + 1);
    if dx > dy {
        assert((i + 1) * dy == i * dy + dy) by (nonlinear_arith);
        lemma_ceil_div_step(i * dy - dx / 2, dx, dy);
    } else if dy > 0 {
        assert((i + 1) * dx == i * dx + dx) by (nonlinear_arith);
        lemma_ceil_div_step(i * dx - dy / 2, dy, dx);
    }
}

/// Every pixel of the drawn segment is within half a pixel of the ideal
/// segment, measured along the shorter axis: twice the cross product of its
/// offset with the segment's direction is at most the longer extent.
pub proof fn lemma_line_close(x0: int, y0: int, x1: int, y1: int, i: int)
    requires
        0 <= i < line_path(x0, y0, x1, y1).len(),
    ensures
        ({
            let p = line_path(x0, y0, x1, y1)[i];
            let cross = (p.0 - x0) * (y1 - y0) - (p.1 - y0) * (x1 - x0);
            let m = if abs_diff(x0, x1) > abs_diff(y0, y1) {
                abs_diff(x0, x1)
            } else {
                abs_diff(y0, y1)
            };
            -m <= 2 * cross <= m
        }),
{
    let dx = abs_diff(x0, x1);
    let dy = abs_diff(y0, y1);
    lemma_line_offsets(x0, y0, x1, y1, i);
    let (ox, oy) = line_offsets(x0, y0, x1, y1, i);
    let c = ox * dy - oy * dx;
    if dx > dy {
        lemma_ceil_div_bounds(i * dy - dx / 2, dx);
        assert(-dx <= 2 * c <= dx) by (nonlinear_arith)
            requires
                c == ox * dy - oy * dx,
                ox == i,
                i * dy - dx / 2 <= oy * dx < i * dy - dx / 2 + dx,
                0 <= dx / 2,
                2 * (dx / 2) <= dx <= 2 * (dx / 2) + 1,
        ;
    } else if dy > 0 {
        lemma_ceil_div_bounds(i * dx - dy / 2, dy);
        assert(-dy <= 2 * c <= dy) by (nonlinear_arith)
            requires
                c == ox * dy - oy * dx,
                oy == i,
                i * dx - dy / 2 <= ox * dy < i * dx - dy / 2 + dy,
                0 <= dy / 2,
                2 * (dy / 2) <= dy <= 2 * (dy / 2) + 1,
        ;
    }
    let p = line_path(x0, y0, x1, y1)[i];
    lemma_cross_sign(ox, oy, dx, dy, p.0 - x0, p.1 - y0, x1 - x0, y1 - y0);
}

/// Flipping the signs of a coordinate and of the matching extent together
/// leaves the cross product unchanged up to its sign.
proof fn lemma_cross_sign(ox: int, oy: int, dx: int, dy: int, px: int, py: int, ex: int, ey: int)
    requires
        (px == ox && ex == dx) || (px == -ox && ex == -dx),
        (py == oy && ey == dy) || (py == -oy && ey == -dy),
    ensures
        px * ey - py * ex == ox * dy - oy * dx || px * ey - py * ex == -(ox * dy - oy * dx),
{
    if px == ox && ex == dx {
        if py == oy && ey == dy {
        } else {
            assert(px * ey - py * ex == -(ox * dy - oy * dx)) by (nonlinear_arith)
                requires
                    px == ox,
                    ex == dx,
                    py == -oy,
                    ey == -dy,
            ;
        }
    } else {
        if py == oy && ey == dy {
            assert(px * ey - py * ex == -(ox * dy - oy * dx)) by (nonlinear_arith)
                requires
                    px == -ox,
                    ex == -dx,
                    py == oy,
                    ey == dy,
            ;
        } else {
            assert(px * ey - py * ex == ox * dy - oy * dx) by (nonlinear_arith)
                requires
                    px == -ox,
                    ex == -dx,
                    py == -oy,
                    ey == -dy,
            ;
        }
    }
}


/// How each pixel of the drawn segment is chosen: it is `i` steps from the
/// start along the longer axis, and its distance `t` from the start along the
/// shorter axis is the one integer with
/// `i * short - long / 2 <= t * long < i * short - long / 2 + long`,
/// i.e. the ideal distance rounded to the nearest integer, ties going back
/// towards the start.
pub proof fn lemma_line_rounding(x0: int, y0: int, x1: int, y1: int, i: int)
    requires
        0 <= i < line_path(x0, y0, x1, y1).len(),
    ensures
        ({
            let p = line_path(x0, y0, x1, y1)[i];
            let dx = abs_diff(x0, x1);
            let dy = abs_diff(y0, y1);
            let tx = abs_diff(p.0, x0);
            let ty = abs_diff(p.1, y0);
            &&& (dx > dy ==> tx == i && i * dy - dx / 2 <= ty * dx < i * dy - dx / 2 + dx)
            &&& (0 < dy && dx <= dy ==> ty == i && i * dx - dy / 2 <= tx * dy < i * dx - dy / 2 + dy)
            &&& (dx == 0 && dy == 0 ==> i == 0 && tx == 0 && ty == 0)
        }),
{
    let dx = abs_diff(x0, x1);
    let dy = abs_diff(y0, y1);
    lemma_line_offsets(x0, y0, x1, y1, i);
    if dx > dy {
        lemma_ceil_div_bounds(i * dy - dx / 2, dx);
    } else if dy > 0 {
        lemma_ceil_div_bounds(i * dx - dy / 2, dy);
    }
}

/// Every pixel that `line` returns lies on the frame and on the segment.
pub proof fn lemma_visible_line_sound(x0: int, y0: int, x1: int, y1: int, width: int, height: int, j: int)
    requires
        0 <= j < visible_line(x0, y0, x1, y1, width, height).len(),
    ensures
        in_frame(visible_line(x0, y0, x1, y1, width, height)[j], width, height),
        line_path(x0, y0, x1, y1).contains(visible_line(x0, y0, x1, y1, width, height)[j]),
{
    let pred = |p: (int, int)| in_frame(p, width, height);
    let path = line_path(x0, y0, x1, y1);
    path.lemma_filter_pred(pred, j);
    path.lemma_filter_contains_rev(pred, path.filter(pred)[j]);
}


/// Clipping keeps exactly the segment's pixels with `0 <= x < width` and
/// `0 <= y < height`, and never more pixels than the segment has.
pub proof fn lemma_visible_line_exact(x0: int, y0: int, x1: int, y1: int, width: int, height: int)
    ensures
        forall|p: (int, int)|
            #[trigger] visible_line(x0, y0, x1, y1, width, height).contains(p) <==> (line_path(
                x0,
                y0,
                x1,
                y1,
            ).contains(p) && 0 <= p.0 < width && 0 <= p.1 < height),
        visible_line(x0, y0, x1, y1, width, height).len() <= line_path(x0, y0, x1, y1).len(),
{
    let path = line_path(x0, y0, x1, y1);
    let pred = |p: (int, int)| in_frame(p, width, height);
    let vis = path.filter(pred);
    path.lemma_filter_len(pred);
    assert forall|p: (int, int)|
        #[trigger] vis.contains(p) <==> (path.contains(p) && 0 <= p.0 < width && 0 <= p.1 < height) by {
        if vis.contains(p) {
            path.lemma_filter_contains_rev(pred, p);
        }
        if path.contains(p) && 0 <= p.0 < width && 0 <= p.1 < height {
            let i = choose|i: int| 0 <= i < path.len() && path[i] == p;
            path.lemma_filter_contains(pred, i);
        }
    }
}

/// Filtering a sequence whose elements all pass leaves it unchanged.
proof fn lemma_filter_keeps_all(s: Seq<(int, int)>, pred: spec_fn((int, int)) -> bool)
    requires
        forall|i: int| 0 <= i < s.len() ==> pred(#[trigger] s[i]),
    ensures
        s.filter(pred) == s,
    decreases s.len(),
{
    if s.len() > 0 {
        let t = s.drop_last();
        lemma_filter_keeps_all(t, pred);
        assert(t.push(s.last()) =~= s);
        t.lemma_filter_push(s.last(), pred);
    }
}

/// A segment whose two end points are on the frame is drawn whole.
pub proof fn lemma_line_inside_frame_drawn_whole(x0: int, y0: int, x1: int, y1: int, width: int, height: int)
    requires
        in_frame((x0, y0), width, height),
        in_frame((x1, y1), width, height),
    ensures
        visible_line(x0, y0, x1, y1, width, height) == line_path(x0, y0, x1, y1),
{
    let path = line_path(x0, y0, x1, y1);
    let pred = |p: (int, int)| in_frame(p, width, height);
    assert forall|i: int| 0 <= i < path.len() implies pred(#[trigger] path[i]) by {
        lemma_line_in_span(x0, y0, x1, y1, i);
    }
    lemma_filter_keeps_all(path, pred);
}

/// Draws the segment between two pixel positions with Bresenham's walk and
/// returns, in drawing order, the pixels of it that fall on a `width` x
/// `height` frame.
pub fn line(x0: i32, y0: i32, x1: i32, y1: i32, width: i32, height: i32) -> (pixels: Vec<(usize, usize)>)
    requires
        -i32::MAX <= x1 - x0 <= i32::MAX,
        -i32::MAX <= y1 - y0 <= i32::MAX,
    ensures
        pixels_view(pixels@) == visible_line(x0 as int, y0 as int, x1 as int, y1 as int, width as int, height as int),
        pixels.len() == visible_line(x0 as int, y0 as int, x1 as int, y1 as int, width as int, height as int).len(),
        forall|j: int|
            0 <= j < pixels.len() ==> ((#[trigger] pixels@[j]).0 as int, pixels@[j].1 as int) == visible_line(
                x0 as int,
                y0 as int,
                x1 as int,
                y1 as int,
                width as int,
                height as int,
            )[j],
{
    let dx: i64 = if x0 <= x1 { x1 as i64 - x0 as i64 } else { x0 as i64 - x1 as i64 };
    let dy: i64 = if y0 <= y1 { y1 as i64 - y0 as i64 } else { y0 as i64 - y1 as i64 };
    let sx: i32 = if x0 < x1 { 1 } else { -1 };
    let sy: i32 = if y0 < y1 { 1 } else { -1 };
    let mut err: i64 = if dx > dy { dx / 2 } else { -(dy / 2) };
    let mut x: i32 = x0;
    let mut y: i32 = y0;
    let mut pixels: Vec<(usize, usize)> = Vec::new();
    let ghost path = line_path(x0 as int, y0 as int, x1 as int, y1 as int);
    let ghost pred = |p: (int, int)| in_frame(p, width as int, height as int);
    let ghost mut cx: int = 0;
    let ghost mut cy: int = 0;
    let ghost mut k: int = 0;
    loop
        invariant_except_break
            dx == abs_diff(x0 as int, x1 as int),
            dy == abs_diff(y0 as int, y1 as int),
            dx <= i32::MAX,
            dy <= i32::MAX,
            sx == (if x0 < x1 { 1int } else { -1int }),
            sy == (if y0 < y1 { 1int } else { -1int }),
            x == advance(x0 as int, x1 as int, cx),
            y == advance(y0 as int, y1 as int, cy),
            dx > dy ==> x_major_state(dx as int, dy as int, cx, cy, err as int) && cx == k,
            dx <= dy ==> y_major_state(dx as int, dy as int, cx, cy, err as int) && cy == k,
            path == line_path(x0 as int, y0 as int, x1 as int, y1 as int),
            pred == (|p: (int, int)| in_frame(p, width as int, height as int)),
            pixels_view(pixels@) == path.take(k).filter(pred),
        ensures
            pixels_view(pixels@) == path.filter(pred),
        decreases (dx - cx) + (dy - cy),
    {
        proof {
            if dx > dy {
                lemma_x_major(dx as int, dy as int, cx, cy, err as int);
            } else if dy > 0 {
                lemma_y_major(dx as int, dy as int, cx, cy, err as int);
            }
            assert(0 <= k < path.len());
            assert(path[k] == (x as int, y as int));
        }
        if 0 <= x && x < width && 0 <= y && y < height {
            pixels.push((x as usize, y as usize));
        }
        proof {
            assert(path.take(k + 1) =~= path.take(k).push(path[k]));
            path.take(k).lemma_filter_push(path[k], pred);
            assert(pixels_view(pixels@) =~= path.take(k + 1).filter(pred));
        }
        if x == x1 && y == y1 {
            proof {
                assert(k + 1 == path.len());
                assert(path.take(k + 1) =~= path);
            }
            break;
        }
        let e2 = err;
        if e2 > -dx {
            proof {
                assert((cx + 1) * dy == cx * dy + dy) by (nonlinear_arith);
            }
            err = err - dy;
            x = x + sx;
            proof {
                cx = cx + 1;
            }
        }
        if e2 < dy {
            proof {
                assert((cy + 1) * dx == cy * dx + dx) by (nonlinear_arith);
            }
            err = err + dx;
            y = y + sy;
            proof {
                cy = cy + 1;
            }
        }
        proof {
            k = k + 1;
        }
    }
    proof {
        let vis = visible_line(x0 as int, y0 as int, x1 as int, y1 as int, width as int, height as int);
        assert(pixels_view(pixels@).len() == pixels.len());
        assert forall|j: int| 0 <= j < pixels.len() implies ((#[trigger] pixels@[j]).0 as int, pixels@[j].1 as int)
            == vis[j] by {
            assert(pixels_view(pixels@)[j] == vis[j]);
        }
    }
    pixels
}

} // verus!
