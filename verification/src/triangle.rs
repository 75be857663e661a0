use vstd::prelude::*;

verus! {

/// Largest x coordinate a triangle's pixel scan may reach.
pub const SCREEN_MAX_X: i32 = 800;

/// Largest y coordinate a triangle's pixel scan may reach.
pub const SCREEN_MAX_Y: i32 = 600;

/// A projected vertex as the rasteriser reads it: the floor and the ceiling
/// of its screen coordinates, and whether all its coordinates are finite.
pub struct ScreenVertex {
    pub floor_x: i32,
    pub floor_y: i32,
    pub ceil_x: i32,
    pub ceil_y: i32,
    pub finite: bool,
}

/// An inclusive pixel rectangle.
#[derive(Clone, Copy, Debug, PartialEq, Eq, Structural)]
pub struct BoundingBox {
    pub min_x: i32,
    pub min_y: i32,
    pub max_x: i32,
    pub max_y: i32,
}

pub open spec fn min3(a: int, b: int, c: int) -> int {
    if a <= b && a <= c { a } else if b <= c { b } else { c }
}

pub open spec fn max3(a: int, b: int, c: int) -> int {
    if a >= b && a >= c { a } else if b >= c { b } else { c }
}

/// `v` limited to `0..=hi`.
pub open spec fn clamp(v: int, hi: int) -> int {
    if v < 0 { 0 } else if v > hi { hi } else { v }
}

/// The pixel rectangle that covers three vertices, cut to the screen.
pub open spec fn bounding_box_of(a: ScreenVertex, b: ScreenVertex, c: ScreenVertex) -> BoundingBox {
    BoundingBox {
        min_x: clamp(min3(a.floor_x as int, b.floor_x as int, c.floor_x as int), SCREEN_MAX_X as int) as i32,
        min_y: clamp(min3(a.floor_y as int, b.floor_y as int, c.floor_y as int), SCREEN_MAX_Y as int) as i32,
        max_x: clamp(max3(a.ceil_x as int, b.ceil_x as int, c.ceil_x as int), SCREEN_MAX_X as int) as i32,
        max_y: clamp(max3(a.ceil_y as int, b.ceil_y as int, c.ceil_y as int), SCREEN_MAX_Y as int) as i32,
    }
}

/// Width of a rectangle's pixel rows (0 when it holds none).
pub open spec fn box_width(bb: BoundingBox) -> int {
    if bb.min_x <= bb.max_x { bb.max_x - bb.min_x + 1 } else { 0 }
}

/// Number of pixel rows of a rectangle (0 when it holds none).
pub open spec fn box_height(bb: BoundingBox) -> int {
    if bb.min_y <= bb.max_y { bb.max_y - bb.min_y + 1 } else { 0 }
}

/// Whether a pixel lies in a rectangle.
pub open spec fn in_box(p: (int, int), bb: BoundingBox) -> bool {
    bb.min_x <= p.0 <= bb.max_x && bb.min_y <= p.1 <= bb.max_y
}

/// The pixels of a rectangle, row by row from the top, each row left to right.
pub open spec fn scan_order(bb: BoundingBox) -> Seq<(int, int)> {
    let w = box_width(bb);
    Seq::new(
        (w * box_height(bb)) as nat,
        |k: int| (bb.min_x + k % w, bb.min_y + k / w),
    )
}

/// Whether a triangle is skipped before any pixel is tested: a coordinate is
/// not finite, its rectangle is at most one pixel wide or high, or it has no
/// area.
pub open spec fn triangle_rejected(a: ScreenVertex, b: ScreenVertex, c: ScreenVertex, has_area: bool) -> bool {
    let bb = bounding_box_of(a, b, c);
    ||| !(a.finite && b.finite && c.finite)
    ||| bb.min_x >= bb.max_x
    ||| bb.min_y >= bb.max_y
    ||| !has_area
}

/// The pixels whose centres are tested against a triangle, in test order.
pub open spec fn triangle_candidates(a: ScreenVertex, b: ScreenVertex, c: ScreenVertex, has_area: bool) -> Seq<(int, int)> {
    if triangle_rejected(a, b, c, has_area) {
        Seq::empty()
    } else {
        scan_order(bounding_box_of(a, b, c))
    }
}

/// Pixel coordinates as mathematical integers.
pub open spec fn points_view(s: Seq<(i32, i32)>) -> Seq<(int, int)> {
    s.map_values(|p: (i32, i32)| (p.0 as int, p.1 as int))
}

fn min_of_three(a: i32, b: i32, c: i32) -> (m: i32)
    ensures
        m == min3(a as int, b as int, c as int),
{
    if a <= b && a <= c {
        a
    } else if b <= c {
        b
    } else {
        c
    }
}

fn max_of_three(a: i32, b: i32, c: i32) -> (m: i32)
    ensures
        m == max3(a as int, b as int, c as int),
{
    if a >= b && a >= c {
        a
    } else if b >= c {
        b
    } else {
        c
    }
}

fn clamp_to(v: i32, hi: i32) -> (r: i32)
    requires
        hi >= 0,
    ensures
        r == clamp(v as int, hi as int),
{
    if v < 0 {
        0
    } else if v > hi {
        hi
    } else {
        v
    }
}

/// The pixel rectangle covering three vertices, cut to the screen.
pub fn calculate_bounding_box(a: &ScreenVertex, b: &ScreenVertex, c: &ScreenVertex) -> (bb: BoundingBox)
    ensures
        bb == bounding_box_of(*a, *b, *c),
{
    let min_x = clamp_to(min_of_three(a.floor_x, b.floor_x, c.floor_x), SCREEN_MAX_X);
    let min_y = clamp_to(min_of_three(a.floor_y, b.floor_y, c.floor_y), SCREEN_MAX_Y);
    let max_x = clamp_to(max_of_three(a.ceil_x, b.ceil_x, c.ceil_x), SCREEN_MAX_X);
    let max_y = clamp_to(max_of_three(a.ceil_y, b.ceil_y, c.ceil_y), SCREEN_MAX_Y);
    BoundingBox { min_x, min_y, max_x, max_y }
}

/// Splits a scan position into its column and row.
proof fn lemma_scan_position(w: int, r: int, c: int)
    requires
        w > 0,
        0 <= c < w,
    ensures
        (r * w + c) % w == c,
        (r * w + c) / w == r,
{
    vstd::arithmetic::div_mod::lemma_fundamental_div_mod_converse(r * w + c, w, r, c);
}

/// The pixels of a rectangle in scan order: rows from `min_y` to `max_y`,
/// each from `min_x` to `max_x`.
pub fn scan_pixels(bb: &BoundingBox) -> (pixels: Vec<(i32, i32)>)
    ensures
        points_view(pixels@) == scan_order(*bb),
        pixels.len() == scan_order(*bb).len(),
        forall|k: int|
            0 <= k < pixels.len() ==> ((#[trigger] pixels@[k]).0 as int, pixels@[k].1 as int) == scan_order(*bb)[k],
{
    let ghost w = box_width(*bb);
    let ghost scan = scan_order(*bb);
    let mut pixels: Vec<(i32, i32)> = Vec::new();
    let mut y: i64 = bb.min_y as i64;
    while y <= bb.max_y as i64
        invariant
            w == box_width(*bb),
            scan == scan_order(*bb),
            bb.min_y <= y <= bb.max_y as int + 1 || (y == bb.min_y && bb.min_y > bb.max_y),
            pixels.len() == w * (y - bb.min_y),
            forall|k: int|
                0 <= k < pixels.len() ==> ((#[trigger] pixels@[k]).0 as int, pixels@[k].1 as int) == scan[k],
        decreases bb.max_y + 1 - y,
    {
        let ghost r = y - bb.min_y;
        let mut x: i64 = bb.min_x as i64;
        while x <= bb.max_x as i64
            invariant
                w == box_width(*bb),
                scan == scan_order(*bb),
                bb.min_y <= y <= bb.max_y,
                r == y - bb.min_y,
                bb.min_x <= x <= bb.max_x as int + 1 || (x == bb.min_x && bb.min_x > bb.max_x),
                pixels.len() == w * r + (x - bb.min_x),
                forall|k: int|
                0 <= k < pixels.len() ==> ((#[trigger] pixels@[k]).0 as int, pixels@[k].1 as int) == scan[k],
            decreases bb.max_x + 1 - x,
        {
            let ghost c = x - bb.min_x;
            proof {
                lemma_scan_position(w, r, c);
                assert(w * r + c < w * (box_height(*bb))) by (nonlinear_arith)
                    requires
                        0 <= c < w,
                        0 <= r < box_height(*bb),
                ;
                assert(r * w == w * r) by (nonlinear_arith);
            }
            pixels.push((x as i32, y as i32));
            x = x + 1;
        }
        proof {
            if bb.min_x > bb.max_x {
                assert(w == 0);
            }
            assert(w * (r + 1) == w * r + w) by (nonlinear_arith);
        }
        y = y + 1;
    }
    proof {
        if bb.min_y > bb.max_y {
            assert(box_height(*bb) == 0);
        }
        assert(w * (y - bb.min_y) == w * box_height(*bb));
        assert(points_view(pixels@) =~= scan);
    }
    pixels
}


/// The pixels whose centres are tested against the triangle `v1 v2 v3`, in
/// the order in which they are tested; `has_area` tells whether the
/// triangle's signed area is large enough to draw.
pub fn triangle(v1: &ScreenVertex, v2: &ScreenVertex, v3: &ScreenVertex, has_area: bool) -> (candidates: Vec<(i32, i32)>)
    ensures
        points_view(candidates@) == triangle_candidates(*v1, *v2, *v3, has_area),
        candidates.len() == triangle_candidates(*v1, *v2, *v3, has_area).len(),
        forall|k: int|
            0 <= k < candidates.len() ==> ((#[trigger] candidates@[k]).0 as int, candidates@[k].1 as int)
                == triangle_candidates(*v1, *v2, *v3, has_area)[k],
{
    if !(v1.finite && v2.finite && v3.finite) {
        let none: Vec<(i32, i32)> = Vec::new();
        assert(points_view(none@) =~= Seq::empty());
        return none;
    }
    let bb = calculate_bounding_box(v1, v2, v3);
    if bb.min_x >= bb.max_x || bb.min_y >= bb.max_y || !has_area {
        let none: Vec<(i32, i32)> = Vec::new();
        assert(points_view(none@) =~= Seq::empty());
        return none;
    }
    scan_pixels(&bb)
}

/// Where scan position `k` lies: column `k % w`, row `k / w`, both inside
/// the rectangle.
proof fn lemma_scan_index(bb: BoundingBox, k: int)
    requires
        0 <= k < scan_order(bb).len(),
    ensures
        box_width(bb) > 0,
        0 <= k % box_width(bb) < box_width(bb),
        0 <= k / box_width(bb) < box_height(bb),
        k == box_width(bb) * (k / box_width(bb)) + k % box_width(bb),
{
    let w = box_width(bb);
    let h = box_height(bb);
    if w <= 0 {
        assert(w * h == 0);
    }
    if h <= 0 {
        assert(w * h == 0) by (nonlinear_arith)
            requires
                h == 0,
        ;
    }
    vstd::arithmetic::div_mod::lemma_fundamental_div_mod(k, w);
    let q = k / w;
    let r = k % w;
    assert(0 <= q < h) by (nonlinear_arith)
        requires
            k == w * q + r,
            0 <= r < w,
            0 <= k < w * h,
            w > 0,
    ;
}

/// Scanning a rectangle visits exactly its pixels, each of them once.
pub proof fn lemma_scan_exact(bb: BoundingBox)
    ensures
        forall|p: (int, int)|
            (bb.min_x <= p.0 <= bb.max_x && bb.min_y <= p.1 <= bb.max_y) <==> #[trigger] scan_order(bb).contains(p),
        forall|i: int, j: int|
            0 <= i < j < scan_order(bb).len() ==> #[trigger] scan_order(bb)[i] != #[trigger] scan_order(bb)[j],
        scan_order(bb).len() == (if bb.min_x <= bb.max_x { bb.max_x - bb.min_x + 1 } else { 0 }) * (if bb.min_y
            <= bb.max_y {
            bb.max_y - bb.min_y + 1
        } else {
            0
        }),
{
    let s = scan_order(bb);
    let w = box_width(bb);
    let h = box_height(bb);
    assert(w * h >= 0) by (nonlinear_arith)
        requires
            w >= 0,
            h >= 0,
    ;
    assert forall|p: (int, int)| in_box(p, bb) <==> #[trigger] s.contains(p) by {
        if in_box(p, bb) {
            let r = p.1 - bb.min_y;
            let c = p.0 - bb.min_x;
            lemma_scan_position(w, r, c);
            assert(r * w + c < w * h) by (nonlinear_arith)
                requires
                    0 <= c < w,
                    0 <= r < h,
            ;
            assert(r * w + c >= 0) by (nonlinear_arith)
                requires
                    0 <= c < w,
                    0 <= r,
            ;
            assert(s[r * w + c] == p);
        }
        if s.contains(p) {
            let k = choose|k: int| 0 <= k < s.len() && s[k] == p;
            lemma_scan_index(bb, k);
        }
    }
    assert forall|i: int, j: int| 0 <= i < j < s.len() implies #[trigger] s[i] != #[trigger] s[j] by {
        lemma_scan_index(bb, i);
        lemma_scan_index(bb, j);
    }
}

/// Every pixel tested against a triangle is on the screen and inside the
/// rectangle spanned by the floors and ceilings of its vertices.
pub proof fn lemma_triangle_candidates_bounded(a: ScreenVertex, b: ScreenVertex, c: ScreenVertex, has_area: bool, k: int)
    requires
        0 <= k < triangle_candidates(a, b, c, has_area).len(),
    ensures
        ({
            let p = triangle_candidates(a, b, c, has_area)[k];
            &&& 0 <= p.0 <= SCREEN_MAX_X
            &&& 0 <= p.1 <= SCREEN_MAX_Y
            &&& min3(a.floor_x as int, b.floor_x as int, c.floor_x as int) <= p.0
            &&& p.0 <= max3(a.ceil_x as int, b.ceil_x as int, c.ceil_x as int)
            &&& min3(a.floor_y as int, b.floor_y as int, c.floor_y as int) <= p.1
            &&& p.1 <= max3(a.ceil_y as int, b.ceil_y as int, c.ceil_y as int)
        }),
{
    let bb = bounding_box_of(a, b, c);
    lemma_scan_exact(bb);
    let p = scan_order(bb)[k];
    assert(scan_order(bb).contains(p));
}

/// No pixel is missed: every screen pixel inside the rectangle spanned by the
/// floors and ceilings of the vertices of a triangle that is not skipped is
/// tested against it.
pub proof fn lemma_triangle_candidates_complete(a: ScreenVertex, b: ScreenVertex, c: ScreenVertex, has_area: bool, p: (int, int))
    requires
        !triangle_rejected(a, b, c, has_area),
        0 <= p.0 <= SCREEN_MAX_X,
        0 <= p.1 <= SCREEN_MAX_Y,
        min3(a.floor_x as int, b.floor_x as int, c.floor_x as int) <= p.0,
        p.0 <= max3(a.ceil_x as int, b.ceil_x as int, c.ceil_x as int),
        min3(a.floor_y as int, b.floor_y as int, c.floor_y as int) <= p.1,
        p.1 <= max3(a.ceil_y as int, b.ceil_y as int, c.ceil_y as int),
    ensures
        triangle_candidates(a, b, c, has_area).contains(p),
{
    let bb = bounding_box_of(a, b, c);
    lemma_scan_exact(bb);
    assert(in_box(p, bb));
}

/// A scan goes row by row from the top, each row from left to right: a later
/// pixel is in a lower row, or further right in the same row.
pub proof fn lemma_scan_row_major(bb: BoundingBox, i: int, j: int)
    requires
        0 <= i < j < scan_order(bb).len(),
    ensures
        scan_order(bb)[i].1 < scan_order(bb)[j].1 || (scan_order(bb)[i].1 == scan_order(bb)[j].1
            && scan_order(bb)[i].0 < scan_order(bb)[j].0),
{
    lemma_scan_index(bb, i);
    lemma_scan_index(bb, j);
    let w = box_width(bb);
    let qi = i / w;
    let ri = i % w;
    let qj = j / w;
    let rj = j % w;
    assert(qi < qj || (qi == qj && ri < rj)) by (nonlinear_arith)
        requires
            i == w * qi + ri,
            j == w * qj + rj,
            0 <= ri < w,
            0 <= rj < w,
            i < j,
    ;
}

/// The box of a triangle reaches left to every vertex's floor and down to
/// every vertex's floor (stopping at the screen's edge), right and up to
/// every vertex's ceiling (stopping at the screen's edge), and each of its
/// sides is a vertex's floor or ceiling, or a screen edge that a vertex lies
/// on or beyond.
pub proof fn lemma_bounding_box_covers(a: ScreenVertex, b: ScreenVertex, c: ScreenVertex)
    ensures
        ({
            let bb = bounding_box_of(a, b, c);
            &&& 0 <= bb.min_x <= SCREEN_MAX_X
            &&& 0 <= bb.max_x <= SCREEN_MAX_X
            &&& 0 <= bb.min_y <= SCREEN_MAX_Y
            &&& 0 <= bb.max_y <= SCREEN_MAX_Y
            &&& (bb.min_x <= a.floor_x || bb.min_x == 0)
            &&& (bb.min_x <= b.floor_x || bb.min_x == 0)
            &&& (bb.min_x <= c.floor_x || bb.min_x == 0)
            &&& (bb.min_x == a.floor_x || bb.min_x == b.floor_x || bb.min_x == c.floor_x
                || (bb.min_x == 0 && (a.floor_x < 0 || b.floor_x < 0 || c.floor_x < 0))
                || (bb.min_x == SCREEN_MAX_X && a.floor_x > SCREEN_MAX_X && b.floor_x > SCREEN_MAX_X
                && c.floor_x > SCREEN_MAX_X))
            &&& (bb.min_y <= a.floor_y || bb.min_y == 0)
            &&& (bb.min_y <= b.floor_y || bb.min_y == 0)
            &&& (bb.min_y <= c.floor_y || bb.min_y == 0)
            &&& (bb.min_y == a.floor_y || bb.min_y == b.floor_y || bb.min_y == c.floor_y
                || (bb.min_y == 0 && (a.floor_y < 0 || b.floor_y < 0 || c.floor_y < 0))
                || (bb.min_y == SCREEN_MAX_Y && a.floor_y > SCREEN_MAX_Y && b.floor_y > SCREEN_MAX_Y
                && c.floor_y > SCREEN_MAX_Y))
            &&& (bb.max_x >= a.ceil_x || bb.max_x == SCREEN_MAX_X)
            &&& (bb.max_x >= b.ceil_x || bb.max_x == SCREEN_MAX_X)
            &&& (bb.max_x >= c.ceil_x || bb.max_x == SCREEN_MAX_X)
            &&& (bb.max_x == a.ceil_x || bb.max_x == b.ceil_x || bb.max_x == c.ceil_x
                || (bb.max_x == SCREEN_MAX_X && (a.ceil_x > SCREEN_MAX_X || b.ceil_x > SCREEN_MAX_X
                || c.ceil_x > SCREEN_MAX_X))
                || (bb.max_x == 0 && a.ceil_x < 0 && b.ceil_x < 0 && c.ceil_x < 0))
            &&& (bb.max_y >= a.ceil_y || bb.max_y == SCREEN_MAX_Y)
            &&& (bb.max_y >= b.ceil_y || bb.max_y == SCREEN_MAX_Y)
            &&& (bb.max_y >= c.ceil_y || bb.max_y == SCREEN_MAX_Y)
            &&& (bb.max_y == a.ceil_y || bb.max_y == b.ceil_y || bb.max_y == c.ceil_y
                || (bb.max_y == SCREEN_MAX_Y && (a.ceil_y > SCREEN_MAX_Y || b.ceil_y > SCREEN_MAX_Y
                || c.ceil_y > SCREEN_MAX_Y))
                || (bb.max_y == 0 && a.ceil_y < 0 && b.ceil_y < 0 && c.ceil_y < 0))
        }),
{
}

/// A triangle is skipped exactly when a vertex is not finite, it has no
/// area, or its box is at most one pixel wide or high; otherwise every pixel
/// of its box is tested, row by row.
pub proof fn lemma_triangle_skip_reasons(a: ScreenVertex, b: ScreenVertex, c: ScreenVertex, has_area: bool)
    ensures
        ({
            let bb = bounding_box_of(a, b, c);
            let drawn = a.finite && b.finite && c.finite && has_area && bb.min_x < bb.max_x && bb.min_y < bb.max_y;
            &&& !drawn ==> triangle_candidates(a, b, c, has_area).len() == 0
            &&& drawn ==> triangle_candidates(a, b, c, has_area) == scan_order(bb)
            &&& drawn ==> triangle_candidates(a, b, c, has_area).len() == (bb.max_x - bb.min_x + 1) * (bb.max_y
                - bb.min_y + 1)
            &&& drawn ==> triangle_candidates(a, b, c, has_area).len() > 0
            &&& drawn ==> triangle_candidates(a, b, c, has_area)[0] == (bb.min_x as int, bb.min_y as int)
        }),
{
    let bb = bounding_box_of(a, b, c);
    lemma_scan_exact(bb);
    if a.finite && b.finite && c.finite && has_area && bb.min_x < bb.max_x && bb.min_y < bb.max_y {
        let w = bb.max_x - bb.min_x + 1;
        let h = bb.max_y - bb.min_y + 1;
        assert(w * h > 0) by (nonlinear_arith)
            requires
                w > 0,
                h > 0,
        ;
        assert(0int % w == 0 && 0int / w == 0);
    }
}

} // verus!
