//! Tangram pictures: polygons filled by an even-odd ray cast, scaled from an 800x600 design
//! into a letterboxed frame.
use vstd::prelude::*;
use crate::display::Display;

verus! {

/// Rust's integer division, which rounds toward zero.
pub open spec fn trunc_div(a: int, b: int) -> int {
    if a >= 0 { a / b } else { -((-a) / b) }
}

/// `v` is a value of `i32`.
pub open spec fn fits_i32(v: int) -> bool {
    i32::MIN <= v <= i32::MAX
}

/// The edge from `pi` to `pj` spans the horizontal line at height `y`.
pub open spec fn straddles(y: int, pi: (i32, i32), pj: (i32, i32)) -> bool {
    (pi.1 > y) != (pj.1 > y)
}

/// Where the ray test places the edge from `pi` to `pj` at height `y`.
pub open spec fn edge_x(y: int, pi: (i32, i32), pj: (i32, i32)) -> int {
    trunc_div((pj.0 - pi.0) * (y - pi.1), pj.1 - pi.1 + 1) + pi.0
}

/// The ray test of this edge at height `y` can be computed in `i32` without overflow or a
/// division by zero.
pub open spec fn edge_computable(y: int, pi: (i32, i32), pj: (i32, i32)) -> bool {
    straddles(y, pi, pj) ==> {
        let dx = pj.0 - pi.0;
        let dy = y - pi.1;
        let d = pj.1 - pi.1 + 1;
        &&& fits_i32(dx)
        &&& fits_i32(dy)
        &&& fits_i32(dx * dy)
        &&& fits_i32(pj.1 - pi.1)
        &&& fits_i32(d)
        &&& d != 0
        &&& !(dx * dy == i32::MIN && d == -1)
        &&& fits_i32(trunc_div(dx * dy, d) + pi.0)
    }
}

/// The ray going left from `(x, y)` crosses the edge from `pi` to `pj`.
pub open spec fn crosses(x: int, y: int, pi: (i32, i32), pj: (i32, i32)) -> bool {
    straddles(y, pi, pj) && x < edge_x(y, pi, pj)
}

/// The vertex before vertex `i` of a closed polygon of `n` vertices.
pub open spec fn prev(i: int, n: int) -> int {
    if i == 0 { n - 1 } else { i - 1 }
}

/// An odd number of the first `k` edges of `pts` (each from vertex `i` to the one before it)
/// is crossed by the ray from `(x, y)`.
pub open spec fn crossing_parity(x: int, y: int, pts: Seq<(i32, i32)>, k: int) -> bool
    decreases k,
{
    if k <= 0 {
        false
    } else {
        crossing_parity(x, y, pts, k - 1) != crosses(x, y, pts[k - 1], pts[prev(k - 1, pts.len() as int)])
    }
}

/// Every edge test for the point `(x, y)` is computable.
pub open spec fn all_edges_computable(y: int, pts: Seq<(i32, i32)>) -> bool {
    forall|i: int| 0 <= i < pts.len() ==> #[trigger] edge_computable(y, pts[i], pts[prev(i, pts.len() as int)])
}

proof fn lemma_trunc_div_bound(a: int, b: int)
    requires
        b != 0,
    ensures
        -a <= trunc_div(a, b) <= a || a <= trunc_div(a, b) <= -a,
        a >= 0 && b < 0 ==> a / b == -(a / (-b)),
        a < 0 && b < 0 ==> (-a) / b == -((-a) / (-b)) && 0 <= (-a) / (-b) <= -a,
{
    if a >= 0 {
        assert(-a <= a / b <= a) by (nonlinear_arith) requires a >= 0, b != 0;
        if b < 0 {
            assert(a / b == -(a / (-b))) by (nonlinear_arith) requires b < 0;
        }
    } else {
        assert(a <= (-a) / b <= -a) by (nonlinear_arith) requires a < 0, b != 0;
        if b < 0 {
            assert(0 <= (-a) / (-b) <= -a) by (nonlinear_arith) requires a < 0, b < 0;
            assert((-a) / b == -((-a) / (-b))) by (nonlinear_arith) requires b < 0;
        }
    }
}

proof fn lemma_trunc_div_halves(a: int, b: int)
    requires
        b >= 2,
    ensures
        a >= 0 ==> 0 <= 2 * trunc_div(a, b) <= a,
        a < 0 ==> a <= 2 * trunc_div(a, b) <= 0,
{
    if a >= 0 {
        assert(0 <= 2 * (a / b) <= a) by (nonlinear_arith) requires a >= 0, b >= 2;
    } else {
        assert(0 <= 2 * ((-a) / b) <= -a) by (nonlinear_arith) requires a < 0, b >= 2;
    }
}

/// Even-odd point-in-polygon test: `(x, y)` is inside when a ray from it crosses an odd number
/// of edges.
pub fn is_inside(x: i32, y: i32, points: &[(i32, i32)]) -> (inside: bool)
    requires
        points@.len() >= 1,
        all_edges_computable(y as int, points@),
    ensures
        inside == crossing_parity(x as int, y as int, points@, points@.len() as int),
{
    let n = points.len();
    let mut inside = false;
    let mut j = n - 1;
    let mut i: usize = 0;
    while i < n
        invariant
            n == points@.len(),
            n >= 1,
            0 <= i <= n,
            j == prev(i as int, n as int) || i == n,
            all_edges_computable(y as int, points@),
            inside == crossing_parity(x as int, y as int, points@, i as int),
        decreases n - i,
    {
        let (pi_x, pi_y) = points[i];
        let (pj_x, pj_y) = points[j];
        proof {
            assert(edge_computable(y as int, points@[i as int], points@[prev(i as int, n as int)]));
        }
        if (pi_y > y) != (pj_y > y) {
            let p = (pj_x - pi_x) * (y - pi_y);
            let d = pj_y - pi_y + 1;
            proof {
                lemma_trunc_div_bound(p as int, d as int);
            }
            // Rust's division rounds toward zero; with a negative divisor it is the negated
            // quotient by the divisor's magnitude.
            let q = if d > 0 {
                p / d
            } else {
                let m = p / -d;
                proof {
                    lemma_trunc_div_bound(p as int, -d);
                    if d < -1 {
                        lemma_trunc_div_halves(p as int, -d);
                    }
                }
                -m
            };
            assert(q == trunc_div(p as int, d as int));
            if x < q + pi_x {
                inside = !inside;
            }
        }
        j = i;
        i = i + 1;
    }
    inside
}

/// The picture: thirteen polygons in an 800x600 design space, each with its color, drawn in
/// this order.
pub open spec fn polygons() -> Seq<(Seq<(i32, i32)>, (u8, u8, u8))> {
    seq![
        (seq![(152i32, 69i32), (54i32, 69i32), (54i32, 165i32)], (200u8, 20u8, 10u8)),
        (seq![(153i32, 70i32), (54i32, 166i32), (54i32, 358i32), (153i32, 263i32)], (255u8, 210u8, 10u8)),
        (seq![(153i32, 69i32), (352i32, 69i32), (352i32, 262i32)], (240u8, 80u8, 220u8)),
        (seq![(252i32, 166i32), (252i32, 358i32), (352i32, 455i32), (352i32, 263i32)], (60u8, 30u8, 240u8)),
        (seq![(54i32, 359i32), (54i32, 552i32), (251i32, 552i32)], (10u8, 200u8, 245u8)),
        (seq![(252i32, 359i32), (153i32, 456i32), (253i32, 552i32), (352i32, 455i32)], (100u8, 240u8, 40u8)),
        (seq![(600i32, 69i32), (500i32, 166i32), (598i32, 262i32)], (10u8, 200u8, 245u8)),
        (seq![(600i32, 69i32), (698i32, 69i32), (698i32, 165i32)], (60u8, 30u8, 240u8)),
        (seq![(797i32, 50i32), (698i32, 50i32), (698i32, 166i32), (797i32, 108i32)], (240u8, 80u8, 220u8)),
        (seq![(599i32, 262i32), (599i32, 358i32), (698i32, 358i32), (698i32, 262i32)], (100u8, 240u8, 40u8)),
        (seq![(699i32, 263i32), (700i32, 455i32), (797i32, 358i32)], (240u8, 80u8, 220u8)),
        (seq![(500i32, 455i32), (550i32, 552i32), (648i32, 552i32), (599i32, 455i32)], (255u8, 140u8, 0u8)),
        (seq![(599i32, 455i32), (649i32, 552i32), (699i32, 455i32)], (60u8, 30u8, 240u8)),
    ]
}

/// Number of polygons in the picture.
pub const POLYGON_COUNT: usize = 13;

/// Polygon `k` of the picture and its color.
pub fn polygon(k: usize) -> (r: (Vec<(i32, i32)>, (u8, u8, u8)))
    requires
        k < POLYGON_COUNT,
    ensures
        r.0@ == polygons()[k as int].0,
        r.1 == polygons()[k as int].1,
{
    let r: (Vec<(i32, i32)>, (u8, u8, u8)) = match k {
        0 => (vec![(152, 69), (54, 69), (54, 165)], (200, 20, 10)),
        1 => (vec![(153, 70), (54, 166), (54, 358), (153, 263)], (255, 210, 10)),
        2 => (vec![(153, 69), (352, 69), (352, 262)], (240, 80, 220)),
        3 => (vec![(252, 166), (252, 358), (352, 455), (352, 263)], (60, 30, 240)),
        4 => (vec![(54, 359), (54, 552), (251, 552)], (10, 200, 245)),
        5 => (vec![(252, 359), (153, 456), (253, 552), (352, 455)], (100, 240, 40)),
        6 => (vec![(600, 69), (500, 166), (598, 262)], (10, 200, 245)),
        7 => (vec![(600, 69), (698, 69), (698, 165)], (60, 30, 240)),
        8 => (vec![(797, 50), (698, 50), (698, 166), (797, 108)], (240, 80, 220)),
        9 => (vec![(599, 262), (599, 358), (698, 358), (698, 262)], (100, 240, 40)),
        10 => (vec![(699, 263), (700, 455), (797, 358)], (240, 80, 220)),
        11 => (vec![(500, 455), (550, 552), (648, 552), (599, 455)], (255, 140, 0)),
        _ => (vec![(599, 455), (649, 552), (699, 455)], (60, 30, 240)),
    };
    assert(r.0@ =~= polygons()[k as int].0);
    r
}

/// The shape of the picture's polygons: at least three vertices, all inside the design space,
/// and no edge that rises by exactly one unit (where the ray test would divide by zero).
pub open spec fn polygon_ok(pts: Seq<(i32, i32)>) -> bool {
    &&& pts.len() >= 3
    &&& forall|i: int| 0 <= i < pts.len() ==> 0 <= #[trigger] pts[i].0 <= 800 && 0 <= pts[i].1 <= 600
    &&& forall|i: int| 0 <= i < pts.len() ==> #[trigger] pts[prev(i, pts.len() as int)].1 != pts[i].1 - 1
}

/// Every polygon of the picture has that shape.
pub proof fn lemma_polygons_ok()
    ensures
        polygons().len() == POLYGON_COUNT,
        forall|k: int| 0 <= k < POLYGON_COUNT ==> #[trigger] polygon_ok(polygons()[k].0),
{
    assert(polygon_ok(polygons()[0].0));
    assert(polygon_ok(polygons()[1].0));
    assert(polygon_ok(polygons()[2].0));
    assert(polygon_ok(polygons()[3].0));
    assert(polygon_ok(polygons()[4].0));
    assert(polygon_ok(polygons()[5].0));
    assert(polygon_ok(polygons()[6].0));
    assert(polygon_ok(polygons()[7].0));
    assert(polygon_ok(polygons()[8].0));
    assert(polygon_ok(polygons()[9].0));
    assert(polygon_ok(polygons()[10].0));
    assert(polygon_ok(polygons()[11].0));
    assert(polygon_ok(polygons()[12].0));
}

proof fn lemma_edges_computable(pts: Seq<(i32, i32)>, y: int)
    requires
        polygon_ok(pts),
        -1000 <= y <= 1000,
    ensures
        all_edges_computable(y, pts),
{
    assert forall|i: int| 0 <= i < pts.len() implies #[trigger] edge_computable(y, pts[i], pts[prev(i, pts.len() as int)]) by {
        let pi = pts[i];
        let j = prev(i, pts.len() as int);
        let pj = pts[j];
        assert(0 <= pj.0 <= 800 && 0 <= pj.1 <= 600);
        let dx = pj.0 - pi.0;
        let dy = y - pi.1;
        let d = pj.1 - pi.1 + 1;
        assert(-1280000 <= dx * dy <= 1280000) by (nonlinear_arith)
            requires -800 <= dx <= 800, -1600 <= dy <= 1600;
        lemma_trunc_div_bound(dx * dy, d);
    }
}

/// The bounding box `(min_x, max_x, min_y, max_y)` of the first `n` vertices, grown from the
/// empty box `(800, 0, 600, 0)` of the design space.
pub open spec fn bbox_upto(pts: Seq<(i32, i32)>, n: int) -> (int, int, int, int)
    decreases n,
{
    if n <= 0 {
        (800, 0, 600, 0)
    } else {
        let b = bbox_upto(pts, n - 1);
        let p = pts[n - 1];
        (
            if p.0 < b.0 { p.0 as int } else { b.0 },
            if p.0 > b.1 { p.0 as int } else { b.1 },
            if p.1 < b.2 { p.1 as int } else { b.2 },
            if p.1 > b.3 { p.1 as int } else { b.3 },
        )
    }
}

/// The bounding box of all vertices of `pts`.
pub open spec fn bbox(pts: Seq<(i32, i32)>) -> (int, int, int, int) {
    bbox_upto(pts, pts.len() as int)
}

/// Computes the bounding box `(min_x, max_x, min_y, max_y)` of `points`.
pub fn bounding_box(points: &[(i32, i32)]) -> (r: (i32, i32, i32, i32))
    ensures
        r.0 == bbox(points@).0,
        r.1 == bbox(points@).1,
        r.2 == bbox(points@).2,
        r.3 == bbox(points@).3,
{
    let mut min_x: i32 = 800;
    let mut max_x: i32 = 0;
    let mut min_y: i32 = 600;
    let mut max_y: i32 = 0;
    let mut i: usize = 0;
    while i < points.len()
        invariant
            0 <= i <= points@.len(),
            min_x == bbox_upto(points@, i as int).0,
            max_x == bbox_upto(points@, i as int).1,
            min_y == bbox_upto(points@, i as int).2,
            max_y == bbox_upto(points@, i as int).3,
        decreases points@.len() - i,
    {
        let (px, py) = points[i];
        if px < min_x { min_x = px; }
        if px > max_x { max_x = px; }
        if py < min_y { min_y = py; }
        if py > max_y { max_y = py; }
        i = i + 1;
    }
    (min_x, max_x, min_y, max_y)
}

proof fn lemma_bbox_range(pts: Seq<(i32, i32)>, n: int)
    requires
        0 <= n <= pts.len(),
        forall|i: int| 0 <= i < pts.len() ==> 0 <= #[trigger] pts[i].0 <= 800 && 0 <= pts[i].1 <= 600,
    ensures
        0 <= bbox_upto(pts, n).0 <= 800,
        0 <= bbox_upto(pts, n).1 <= 800,
        0 <= bbox_upto(pts, n).2 <= 600,
        0 <= bbox_upto(pts, n).3 <= 600,
    decreases n,
{
    if n > 0 {
        lemma_bbox_range(pts, n - 1);
        assert(0 <= pts[n - 1].0 <= 800);
    }
}

/// Whether polygon `pts` covers pixel `(x, y)` of an 800x600 frame: inside its bounding box
/// (clipped to the frame) and inside the polygon.
pub open spec fn shape_hit(pts: Seq<(i32, i32)>, x: int, y: int) -> bool {
    let b = bbox(pts);
    &&& (if b.0 > 0 { b.0 } else { 0 }) <= x <= (if b.1 < 799 { b.1 } else { 799 })
    &&& (if b.2 > 0 { b.2 } else { 0 }) <= y <= (if b.3 < 599 { b.3 } else { 599 })
    &&& crossing_parity(x, y, pts, pts.len() as int)
}

/// Draws polygon `shape_id` of the picture, unscaled, on an 800x600 frame.
pub fn draw_shape(d: &mut Display, shape_id: usize)
    requires
        old(d).wf(),
        old(d).spec_w() == 800,
        old(d).spec_h() == 600,
        shape_id < POLYGON_COUNT,
    ensures
        Display::painted(old(d), final(d), |x: int, y: int| shape_hit(polygons()[shape_id as int].0, x, y),
            polygons()[shape_id as int].1),
{
    let ghost orig = *d;
    let (points, color) = polygon(shape_id);
    let ghost pts = points@;
    proof {
        lemma_polygons_ok();
        assert(polygon_ok(pts));
        lemma_bbox_range(pts, pts.len() as int);
    }
    let (bx0, bx1, by0, by1) = bounding_box(points.as_slice());
    let min_x = if bx0 > 0 { bx0 } else { 0 };
    let max_x = if bx1 < 799 { bx1 } else { 799 };
    let min_y = if by0 > 0 { by0 } else { 0 };
    let max_y = if by1 < 599 { by1 } else { 599 };
    let mut y = min_y;
    while y <= max_y
        invariant
            0 <= min_y <= y,
            y <= max_y + 1 || y == min_y,
            0 <= min_x,
            max_x <= 799,
            max_y <= 599,
            pts == points@,
            pts == polygons()[shape_id as int].0,
            color == polygons()[shape_id as int].1,
            polygon_ok(pts),
            min_x == (if bbox(pts).0 > 0 { bbox(pts).0 } else { 0 }),
            max_x == (if bbox(pts).1 < 799 { bbox(pts).1 } else { 799 }),
            min_y == (if bbox(pts).2 > 0 { bbox(pts).2 } else { 0 }),
            max_y == (if bbox(pts).3 < 599 { bbox(pts).3 } else { 599 }),
            orig.spec_w() == 800,
            orig.spec_h() == 600,
            Display::painted(&orig, d, |px: int, py: int| shape_hit(pts, px, py) && py < y, color),
        decreases max_y + 1 - y,
    {
        let mut x = min_x;
        while x <= max_x
            invariant
                0 <= min_x <= x,
                x <= max_x + 1 || x == min_x,
                max_x <= 799,
                min_y <= y <= max_y,
                max_y <= 599,
                pts == points@,
                polygon_ok(pts),
                min_x == (if bbox(pts).0 > 0 { bbox(pts).0 } else { 0 }),
                max_x == (if bbox(pts).1 < 799 { bbox(pts).1 } else { 799 }),
                min_y == (if bbox(pts).2 > 0 { bbox(pts).2 } else { 0 }),
                max_y == (if bbox(pts).3 < 599 { bbox(pts).3 } else { 599 }),
                orig.spec_w() == 800,
                orig.spec_h() == 600,
                Display::painted(&orig, d, |px: int, py: int| shape_hit(pts, px, py) && (py < y || (py == y && px < x)), color),
            decreases max_x + 1 - x,
        {
            proof {
                lemma_edges_computable(pts, y as int);
            }
            let ghost before = *d;
            if is_inside(x, y, points.as_slice()) {
                d.set_pixel(x as usize, y as usize, color);
                proof {
                    Display::lemma_painted_join(&orig, &before, d,
                        |px: int, py: int| shape_hit(pts, px, py) && (py < y || (py == y && px < x)),
                        |px: int, py: int| px == x && py == y,
                        |px: int, py: int| shape_hit(pts, px, py) && (py < y || (py == y && px < x + 1)),
                        color);
                }
            } else {
                proof {
                    Display::lemma_painted_region(&orig, d,
                        |px: int, py: int| shape_hit(pts, px, py) && (py < y || (py == y && px < x)),
                        |px: int, py: int| shape_hit(pts, px, py) && (py < y || (py == y && px < x + 1)),
                        color);
                }
            }
            x = x + 1;
        }
        proof {
            Display::lemma_painted_region(&orig, d,
                |px: int, py: int| shape_hit(pts, px, py) && (py < y || (py == y && px < x)),
                |px: int, py: int| shape_hit(pts, px, py) && py < y + 1,
                color);
        }
        y = y + 1;
    }
    proof {
        Display::lemma_painted_region(&orig, d,
            |px: int, py: int| shape_hit(pts, px, py) && py < y,
            |px: int, py: int| shape_hit(pts, px, py),
            color);
    }
}

/// Background color of the pictures, dark grey.
pub open spec fn background() -> (u8, u8, u8) {
    (0x33u8, 0x33u8, 0x33u8)
}

/// Paints the whole frame dark grey.
pub fn fill_background(d: &mut Display)
    requires
        old(d).wf(),
    ensures
        Display::painted(old(d), final(d), |x: int, y: int| true, background()),
{
    let w = d.width();
    let h = d.height();
    d.fill_rect(0, 0, w, h, (0x33, 0x33, 0x33));
    proof {
        Display::lemma_painted_region(old(d), d,
            |px: int, py: int| 0 <= px < w && 0 <= py < h,
            |px: int, py: int| true,
            background());
    }
}

/// The largest 4:3 area `(width, height, left, top)` centred in a `w` by `h` frame.
pub open spec fn letterbox(w: int, h: int) -> (int, int, int, int) {
    let mw = if w * 600 > h * 800 { (h * 800) / 600 } else { w };
    let mh = if w * 600 > h * 800 { h } else { (w * 600) / 800 };
    (mw, mh, (w - mw) / 2, (h - mh) / 2)
}

/// Computes the letterboxed 4:3 area of a `w` by `h` frame.
pub fn letterbox_area(w: i32, h: i32) -> (r: (i32, i32, i32, i32))
    requires
        0 <= w,
        0 <= h,
        w * 800 <= i32::MAX,
        h * 800 <= i32::MAX,
    ensures
        r.0 == letterbox(w as int, h as int).0,
        r.1 == letterbox(w as int, h as int).1,
        r.2 == letterbox(w as int, h as int).2,
        r.3 == letterbox(w as int, h as int).3,
        0 <= r.0 <= w,
        0 <= r.1 <= h,
        0 <= r.2,
        r.2 + r.0 <= w,
        0 <= r.3,
        r.3 + r.1 <= h,
{
    let mapped_w: i32;
    let mapped_h: i32;
    if w * 600 > h * 800 {
        mapped_h = h;
        mapped_w = (h * 800) / 600;
        assert((h * 800) / 600 <= w) by (nonlinear_arith) requires w * 600 > h * 800, h >= 0;
    } else {
        mapped_w = w;
        mapped_h = (w * 600) / 800;
        assert((w * 600) / 800 <= h) by (nonlinear_arith) requires w * 600 <= h * 800, w >= 0;
    }
    let offset_x = (w - mapped_w) / 2;
    let offset_y = (h - mapped_h) / 2;
    (mapped_w, mapped_h, offset_x, offset_y)
}

/// Where polygon `pts` lands on a `w` by `h` frame: its scaled bounding box, widened by a
/// pixel on each side and clipped to the frame, as `(min_x, max_x, min_y, max_y)`.
pub open spec fn screen_box(w: int, h: int, pts: Seq<(i32, i32)>) -> (int, int, int, int) {
    let lb = letterbox(w, h);
    let b = bbox(pts);
    let x0 = lb.2 + (b.0 * lb.0) / 800 - 1;
    let x1 = lb.2 + (b.1 * lb.0) / 800 + 1;
    let y0 = lb.3 + (b.2 * lb.1) / 600 - 1;
    let y1 = lb.3 + (b.3 * lb.1) / 600 + 1;
    (
        if x0 > 0 { x0 } else { 0 },
        if x1 < w - 1 { x1 } else { w - 1 },
        if y0 > 0 { y0 } else { 0 },
        if y1 < h - 1 { y1 } else { h - 1 },
    )
}

/// Whether polygon `pts`, scaled into the letterboxed area of a `w` by `h` frame, covers pixel
/// `(x, y)`: the pixel is in its screen box and in the area, and maps back into the polygon.
pub open spec fn tangram_hit(w: int, h: int, pts: Seq<(i32, i32)>, x: int, y: int) -> bool {
    let lb = letterbox(w, h);
    let sb = screen_box(w, h, pts);
    &&& sb.0 <= x <= sb.1
    &&& sb.2 <= y <= sb.3
    &&& lb.2 <= x < lb.2 + lb.0
    &&& lb.3 <= y < lb.3 + lb.1
    &&& crossing_parity(((x - lb.2) * 800) / lb.0, ((y - lb.3) * 600) / lb.1, pts, pts.len() as int)
}

/// The color of pixel `(x, y)` once the background and the first `n` polygons are drawn.
pub open spec fn tangram_color(w: int, h: int, x: int, y: int, n: int) -> (u8, u8, u8)
    decreases n,
{
    if n <= 0 {
        background()
    } else if tangram_hit(w, h, polygons()[n - 1].0, x, y) {
        polygons()[n - 1].1
    } else {
        tangram_color(w, h, x, y, n - 1)
    }
}

proof fn lemma_scaled_back(a: int, m: int, s: int)
    requires
        0 <= a < m,
        s > 0,
    ensures
        0 <= (a * s) / m < s,
{
    assert(0 <= (a * s) / m < s) by (nonlinear_arith) requires 0 <= a < m, s > 0;
}

/// Draws polygon `points` scaled into the letterboxed area `lb` of the `w` by `h` frame `d`.
fn paint_polygon(d: &mut Display, points: &[(i32, i32)], color: (u8, u8, u8), w: i32, h: i32, lb: (i32, i32, i32, i32))
    requires
        old(d).wf(),
        old(d).spec_w() == w,
        old(d).spec_h() == h,
        0 <= w,
        0 <= h,
        w * 800 <= i32::MAX,
        h * 800 <= i32::MAX,
        lb.0 == letterbox(w as int, h as int).0,
        lb.1 == letterbox(w as int, h as int).1,
        lb.2 == letterbox(w as int, h as int).2,
        lb.3 == letterbox(w as int, h as int).3,
        0 <= lb.0 <= w,
        0 <= lb.1 <= h,
        0 <= lb.2,
        lb.2 + lb.0 <= w,
        0 <= lb.3,
        lb.3 + lb.1 <= h,
        polygon_ok(points@),
    ensures
        Display::painted(old(d), final(d), |x: int, y: int| tangram_hit(w as int, h as int, points@, x, y), color),
{
    let ghost orig = *d;
    let ghost pts = points@;
    let (mapped_w, mapped_h, offset_x, offset_y) = lb;
    proof {
        lemma_bbox_range(pts, pts.len() as int);
        assert(bbox(pts).0 * mapped_w <= 800 * w) by (nonlinear_arith) requires 0 <= bbox(pts).0 <= 800, 0 <= mapped_w <= w;
        assert(bbox(pts).1 * mapped_w <= 800 * w) by (nonlinear_arith) requires 0 <= bbox(pts).1 <= 800, 0 <= mapped_w <= w;
        assert(bbox(pts).2 * mapped_h <= 800 * h) by (nonlinear_arith) requires 0 <= bbox(pts).2 <= 600, 0 <= mapped_h <= h;
        assert(bbox(pts).3 * mapped_h <= 800 * h) by (nonlinear_arith) requires 0 <= bbox(pts).3 <= 600, 0 <= mapped_h <= h;
        assert(0 <= bbox(pts).0 * mapped_w) by (nonlinear_arith) requires 0 <= bbox(pts).0, 0 <= mapped_w;
        assert(0 <= bbox(pts).1 * mapped_w) by (nonlinear_arith) requires 0 <= bbox(pts).1, 0 <= mapped_w;
        assert(0 <= bbox(pts).2 * mapped_h) by (nonlinear_arith) requires 0 <= bbox(pts).2, 0 <= mapped_h;
        assert(0 <= bbox(pts).3 * mapped_h) by (nonlinear_arith) requires 0 <= bbox(pts).3, 0 <= mapped_h;
    }
    let (min_x, max_x, min_y, max_y) = bounding_box(points);
    let mut screen_min_x = offset_x + (min_x * mapped_w) / 800;
    let mut screen_max_x = offset_x + (max_x * mapped_w) / 800;
    let mut screen_min_y = offset_y + (min_y * mapped_h) / 600;
    let mut screen_max_y = offset_y + (max_y * mapped_h) / 600;
    screen_min_x = if screen_min_x - 1 > 0 { screen_min_x - 1 } else { 0 };
    screen_max_x = if screen_max_x + 1 < w - 1 { screen_max_x + 1 } else { w - 1 };
    screen_min_y = if screen_min_y - 1 > 0 { screen_min_y - 1 } else { 0 };
    screen_max_y = if screen_max_y + 1 < h - 1 { screen_max_y + 1 } else { h - 1 };
    let ghost sb = screen_box(w as int, h as int, pts);
    assert(screen_min_x == sb.0 && screen_max_x == sb.1 && screen_min_y == sb.2 && screen_max_y == sb.3);
    let mut y = screen_min_y;
    while y <= screen_max_y
        invariant
            0 <= screen_min_y <= y,
            y <= screen_max_y + 1 || y == screen_min_y,
            screen_max_y <= h - 1,
            0 <= screen_min_x,
            screen_max_x <= w - 1,
            sb == screen_box(w as int, h as int, pts),
            screen_min_x == sb.0 && screen_max_x == sb.1 && screen_min_y == sb.2 && screen_max_y == sb.3,
            pts == points@,
            polygon_ok(pts),
            orig.spec_w() == w,
            orig.spec_h() == h,
            w * 800 <= i32::MAX,
            h * 800 <= i32::MAX,
            mapped_w == letterbox(w as int, h as int).0,
            mapped_h == letterbox(w as int, h as int).1,
            offset_x == letterbox(w as int, h as int).2,
            offset_y == letterbox(w as int, h as int).3,
            0 <= mapped_w <= w,
            0 <= mapped_h <= h,
            0 <= offset_x,
            offset_x + mapped_w <= w,
            0 <= offset_y,
            offset_y + mapped_h <= h,
            Display::painted(&orig, d, |px: int, py: int| tangram_hit(w as int, h as int, pts, px, py) && py < y, color),
        decreases screen_max_y + 1 - y,
    {
        let mut x = screen_min_x;
        while x <= screen_max_x
            invariant
                0 <= screen_min_x <= x,
                x <= screen_max_x + 1 || x == screen_min_x,
                screen_max_x <= w - 1,
                screen_min_y <= y <= screen_max_y,
                screen_max_y <= h - 1,
                sb == screen_box(w as int, h as int, pts),
                screen_min_x == sb.0 && screen_max_x == sb.1 && screen_min_y == sb.2 && screen_max_y == sb.3,
                pts == points@,
                polygon_ok(pts),
                orig.spec_w() == w,
                orig.spec_h() == h,
                w * 800 <= i32::MAX,
                h * 800 <= i32::MAX,
                mapped_w == letterbox(w as int, h as int).0,
                mapped_h == letterbox(w as int, h as int).1,
                offset_x == letterbox(w as int, h as int).2,
                offset_y == letterbox(w as int, h as int).3,
                0 <= mapped_w <= w,
                0 <= mapped_h <= h,
                0 <= offset_x,
                offset_x + mapped_w <= w,
                0 <= offset_y,
                offset_y + mapped_h <= h,
                Display::painted(&orig, d, |px: int, py: int| tangram_hit(w as int, h as int, pts, px, py)
                    && (py < y || (py == y && px < x)), color),
            decreases screen_max_x + 1 - x,
        {
            let ghost before = *d;
            let mut hit = false;
            if x >= offset_x && x < offset_x + mapped_w && y >= offset_y && y < offset_y + mapped_h {
                proof {
                    assert((x - offset_x) * 800 <= w * 800) by (nonlinear_arith) requires 0 <= x - offset_x <= w;
                    assert((y - offset_y) * 600 <= h * 800) by (nonlinear_arith) requires 0 <= y - offset_y <= h;
                    assert(0 <= (x - offset_x) * 800) by (nonlinear_arith) requires 0 <= x - offset_x;
                    assert(0 <= (y - offset_y) * 600) by (nonlinear_arith) requires 0 <= y - offset_y;
                }
                let orig_x = ((x - offset_x) * 800) / mapped_w;
                let orig_y = ((y - offset_y) * 600) / mapped_h;
                proof {
                    lemma_scaled_back((x - offset_x) as int, mapped_w as int, 800);
                    lemma_scaled_back((y - offset_y) as int, mapped_h as int, 600);
                    lemma_edges_computable(pts, orig_y as int);
                }
                hit = is_inside(orig_x, orig_y, points);
            }
            assert(hit == tangram_hit(w as int, h as int, pts, x as int, y as int));
            if hit {
                d.set_pixel(x as usize, y as usize, color);
                proof {
                    Display::lemma_painted_join(&orig, &before, d,
                        |px: int, py: int| tangram_hit(w as int, h as int, pts, px, py) && (py < y || (py == y && px < x)),
                        |px: int, py: int| px == x && py == y,
                        |px: int, py: int| tangram_hit(w as int, h as int, pts, px, py) && (py < y || (py == y && px < x + 1)),
                        color);
                }
            } else {
                proof {
                    Display::lemma_painted_region(&orig, d,
                        |px: int, py: int| tangram_hit(w as int, h as int, pts, px, py) && (py < y || (py == y && px < x)),
                        |px: int, py: int| tangram_hit(w as int, h as int, pts, px, py) && (py < y || (py == y && px < x + 1)),
                        color);
                }
            }
            x = x + 1;
        }
        proof {
            Display::lemma_painted_region(&orig, d,
                |px: int, py: int| tangram_hit(w as int, h as int, pts, px, py) && (py < y || (py == y && px < x)),
                |px: int, py: int| tangram_hit(w as int, h as int, pts, px, py) && py < y + 1,
                color);
        }
        y = y + 1;
    }
    proof {
        Display::lemma_painted_region(&orig, d,
            |px: int, py: int| tangram_hit(w as int, h as int, pts, px, py) && py < y,
            |px: int, py: int| tangram_hit(w as int, h as int, pts, px, py),
            color);
    }
}

/// Draws the whole picture on `d`: the grey background, then every polygon in order, scaled
/// into the largest centred 4:3 area of the frame.
pub fn draw_tangram(d: &mut Display)
    requires
        old(d).wf(),
        old(d).spec_w() * 800 <= i32::MAX,
        old(d).spec_h() * 800 <= i32::MAX,
    ensures
        final(d).wf(),
        final(d).spec_w() == old(d).spec_w(),
        final(d).spec_h() == old(d).spec_h(),
        final(d).spec_offset_x() == old(d).spec_offset_x(),
        final(d).spec_offset_y() == old(d).spec_offset_y(),
        forall|x: int, y: int| #[trigger] old(d).on_screen(x, y) ==>
            final(d).pixel(x, y) == crate::display::shade(tangram_color(old(d).spec_w(), old(d).spec_h(), x, y, POLYGON_COUNT as int)),
{
    let ghost orig = *d;
    let w = d.width() as i32;
    let h = d.height() as i32;
    let lb = letterbox_area(w, h);
    fill_background(d);
    proof {
        lemma_polygons_ok();
    }
    let mut k: usize = 0;
    while k < POLYGON_COUNT
        invariant
            0 <= k <= POLYGON_COUNT,
            d.wf(),
            d.spec_w() == orig.spec_w() == w,
            d.spec_h() == orig.spec_h() == h,
            d.spec_offset_x() == orig.spec_offset_x(),
            d.spec_offset_y() == orig.spec_offset_y(),
            0 <= w,
            0 <= h,
            w * 800 <= i32::MAX,
            h * 800 <= i32::MAX,
            lb.0 == letterbox(w as int, h as int).0,
            lb.1 == letterbox(w as int, h as int).1,
            lb.2 == letterbox(w as int, h as int).2,
            lb.3 == letterbox(w as int, h as int).3,
            0 <= lb.0 <= w,
            0 <= lb.1 <= h,
            0 <= lb.2,
            lb.2 + lb.0 <= w,
            0 <= lb.3,
            lb.3 + lb.1 <= h,
            polygons().len() == POLYGON_COUNT,
            forall|i: int| 0 <= i < POLYGON_COUNT ==> #[trigger] polygon_ok(polygons()[i].0),
            forall|x: int, y: int| #[trigger] orig.on_screen(x, y) ==>
                d.pixel(x, y) == crate::display::shade(tangram_color(w as int, h as int, x, y, k as int)),
        decreases POLYGON_COUNT - k,
    {
        let (points, color) = polygon(k);
        proof {
            assert(polygon_ok(polygons()[k as int].0));
        }
        let ghost before = *d;
        paint_polygon(d, points.as_slice(), color, w, h, lb);
        proof {
            assert forall|x: int, y: int| #[trigger] orig.on_screen(x, y) implies
                d.pixel(x, y) == crate::display::shade(tangram_color(w as int, h as int, x, y, k + 1)) by {
                assert(before.on_screen(x, y));
            }
        }
        k = k + 1;
    }
}

} // verus!
