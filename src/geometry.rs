use vstd::prelude::*;

verus! {

/// Largest absolute value of a point coordinate. Within this bound every
/// intersection is computed exactly in 128-bit arithmetic.
pub const COORD_LIMIT: i64 = 2097152;

/// Largest absolute value of a ray origin's numerator.
pub const RAY_ORIGIN_LIMIT: i64 = 137438953472;

/// Largest common denominator of a ray.
pub const RAY_SCALE_LIMIT: i64 = 16384;

/// Largest absolute value of a ray direction's component.
pub const RAY_DIR_LIMIT: i64 = 1099511627776;

/// A point of the integer plane.
#[derive(Clone, Copy, Debug, PartialEq, Eq, Structural)]
pub struct Point {
    pub x: i64,
    pub y: i64,
}

impl Point {
    pub open spec fn in_range(self) -> bool {
        -COORD_LIMIT <= self.x <= COORD_LIMIT && -COORD_LIMIT <= self.y <= COORD_LIMIT
    }
}

/// An undirected edge between two points: an occluder or a scene boundary.
#[derive(Clone, Copy, Debug, PartialEq, Eq, Structural)]
pub struct Segment {
    pub a: Point,
    pub b: Point,
}

impl Segment {
    pub open spec fn in_range(self) -> bool {
        self.a.in_range() && self.b.in_range()
    }
}

/// A half-line in homogeneous form: its point at parameter `t >= 0` is
/// `((ox + t * dx) / scale, (oy + t * dy) / scale)`.
#[derive(Clone, Copy, Debug, PartialEq, Eq, Structural)]
pub struct Ray {
    pub ox: i64,
    pub oy: i64,
    pub scale: i64,
    pub dx: i64,
    pub dy: i64,
}

impl Ray {
    pub open spec fn in_range(self) -> bool {
        &&& -RAY_ORIGIN_LIMIT <= self.ox <= RAY_ORIGIN_LIMIT
        &&& -RAY_ORIGIN_LIMIT <= self.oy <= RAY_ORIGIN_LIMIT
        &&& 1 <= self.scale <= RAY_SCALE_LIMIT
        &&& -RAY_DIR_LIMIT <= self.dx <= RAY_DIR_LIMIT
        &&& -RAY_DIR_LIMIT <= self.dy <= RAY_DIR_LIMIT
    }
}

/// An exact ray/segment hit: the point `(x / den, y / den)`, reached at the
/// ray parameter `param / param_den`. Both denominators are positive.
#[derive(Clone, Copy, Debug, PartialEq, Eq, Structural)]
pub struct Intersection {
    pub x: i128,
    pub y: i128,
    pub den: i128,
    pub param: i128,
    pub param_den: i128,
}

pub open spec fn cross(ax: int, ay: int, bx: int, by: int) -> int {
    ax * by - ay * bx
}

/// Offset from the ray origin to the segment start, times the ray's scale.
pub open spec fn offset_x(r: Ray, s: Segment) -> int {
    r.scale * s.a.x - r.ox
}

pub open spec fn offset_y(r: Ray, s: Segment) -> int {
    r.scale * s.a.y - r.oy
}

pub open spec fn edge_x(s: Segment) -> int {
    s.b.x - s.a.x
}

pub open spec fn edge_y(s: Segment) -> int {
    s.b.y - s.a.y
}

/// Determinant of the system `origin + t * dir == a + u * edge`; zero when
/// the ray and the segment are parallel (or the segment is a single point).
pub open spec fn system_det(r: Ray, s: Segment) -> int {
    cross(r.dx as int, r.dy as int, edge_x(s), edge_y(s))
}

/// The ray parameter of the solution is `ray_num / system_det`.
pub open spec fn ray_num(r: Ray, s: Segment) -> int {
    cross(offset_x(r, s), offset_y(r, s), edge_x(s), edge_y(s))
}

/// The segment parameter of the solution is `seg_num / (scale * system_det)`.
pub open spec fn seg_num(r: Ray, s: Segment) -> int {
    cross(offset_x(r, s), offset_y(r, s), r.dx as int, r.dy as int)
}

pub open spec fn det_sign(r: Ray, s: Segment) -> int {
    if system_det(r, s) < 0 { -1 } else { 1 }
}

/// The solution's parameters over a positive common denominator.
pub open spec fn pos_det(r: Ray, s: Segment) -> int {
    det_sign(r, s) * system_det(r, s)
}

pub open spec fn pos_ray_num(r: Ray, s: Segment) -> int {
    det_sign(r, s) * ray_num(r, s)
}

pub open spec fn pos_seg_num(r: Ray, s: Segment) -> int {
    det_sign(r, s) * seg_num(r, s)
}

/// The ray meets the segment: the system has a single solution, with a
/// non-negative ray parameter and a segment parameter in `[0, 1]`.
pub open spec fn hits(r: Ray, s: Segment) -> bool {
    &&& system_det(r, s) != 0
    &&& pos_ray_num(r, s) >= 0
    &&& pos_seg_num(r, s) >= 0
    &&& pos_seg_num(r, s) <= r.scale * pos_det(r, s)
}

/// `h` is the exact hit of `r` on `s`.
pub open spec fn is_hit_of(h: Intersection, r: Ray, s: Segment) -> bool {
    &&& h.x == r.ox * pos_det(r, s) + pos_ray_num(r, s) * r.dx
    &&& h.y == r.oy * pos_det(r, s) + pos_ray_num(r, s) * r.dy
    &&& h.den == r.scale * pos_det(r, s)
    &&& h.param == pos_ray_num(r, s)
    &&& h.param_den == pos_det(r, s)
}

/// `a` lies strictly nearer to the ray origin than `b`.
pub open spec fn nearer(a: Intersection, b: Intersection) -> bool {
    a.param * b.param_den < b.param * a.param_den
}

pub open spec fn all_in_range(s: Seq<Segment>) -> bool {
    forall|i: int| 0 <= i < s.len() ==> (#[trigger] s[i]).in_range()
}

/// Among the first `n` segments, `h` is the hit of `r` on `segs[i]`, no
/// segment is hit nearer, and every segment before `i` that is hit is hit
/// farther.
pub open spec fn is_closest_in(h: Intersection, r: Ray, segs: Seq<Segment>, n: int, i: int) -> bool {
    &&& 0 <= i < n <= segs.len()
    &&& hits(r, segs[i])
    &&& is_hit_of(h, r, segs[i])
    &&& forall|j: int| 0 <= j < n && hits(r, #[trigger] segs[j]) ==> !(
        pos_ray_num(r, segs[j]) * h.param_den < h.param * pos_det(r, segs[j]))
    &&& forall|j: int| 0 <= j < i && hits(r, #[trigger] segs[j]) ==>
        h.param * pos_det(r, segs[j]) < pos_ray_num(r, segs[j]) * h.param_den
}

/// `h` is the hit of `r` on `segs[i]`, the first of the nearest hits.
pub open spec fn is_closest_at(h: Intersection, r: Ray, segs: Seq<Segment>, i: int) -> bool {
    is_closest_in(h, r, segs, segs.len() as int, i)
}

/// The nearest hit of `r` among `segs`, the first of equally near ones.
pub open spec fn closest_hit(r: Ray, segs: Seq<Segment>) -> Option<Intersection> {
    if exists|h: Intersection, i: int| #[trigger] is_closest_at(h, r, segs, i) {
        Some((choose|h: Intersection, i: int| is_closest_at(h, r, segs, i)).0)
    } else {
        None
    }
}

/// Only one hit is the first nearest.
pub proof fn lemma_closest_unique(
    h1: Intersection,
    h2: Intersection,
    r: Ray,
    segs: Seq<Segment>,
    i1: int,
    i2: int,
)
    requires
        is_closest_at(h1, r, segs, i1),
        is_closest_at(h2, r, segs, i2),
    ensures
        h1 == h2,
{
    if i1 < i2 {
        assert(hits(r, segs[i1]));
        assert(hits(r, segs[i2]));
        assert(false);
    } else if i2 < i1 {
        assert(hits(r, segs[i1]));
        assert(hits(r, segs[i2]));
        assert(false);
    }
}

/// The parameters `ray_num / system_det` and `seg_num / (scale * system_det)`
/// solve the system: both give the same point, here with every side
/// multiplied by `scale * system_det`.
pub proof fn lemma_parameters_solve(r: Ray, s: Segment)
    ensures
        r.ox * system_det(r, s) + ray_num(r, s) * r.dx == r.scale * s.a.x * system_det(r, s)
            + seg_num(r, s) * edge_x(s),
        r.oy * system_det(r, s) + ray_num(r, s) * r.dy == r.scale * s.a.y * system_det(r, s)
            + seg_num(r, s) * edge_y(s),
{
    let wx = offset_x(r, s);
    let wy = offset_y(r, s);
    let ex = edge_x(s);
    let ey = edge_y(s);
    let dx = r.dx as int;
    let dy = r.dy as int;
    assert((wx * ey - wy * ex) * dx - (wx * dy - wy * dx) * ex == wx * (dx * ey - dy * ex))
        by (nonlinear_arith);
    assert((wx * ey - wy * ex) * dy - (wx * dy - wy * dx) * ey == wy * (dx * ey - dy * ex))
        by (nonlinear_arith);
    assert(r.scale * s.a.x * (dx * ey - dy * ex) == (wx + r.ox) * (dx * ey - dy * ex))
        by (nonlinear_arith) requires wx == r.scale * s.a.x - r.ox;
    assert(r.scale * s.a.y * (dx * ey - dy * ex) == (wy + r.oy) * (dx * ey - dy * ex))
        by (nonlinear_arith) requires wy == r.scale * s.a.y - r.oy;
    assert((wx + r.ox) * (dx * ey - dy * ex) == wx * (dx * ey - dy * ex) + r.ox * (dx * ey - dy * ex))
        by (nonlinear_arith);
    assert((wy + r.oy) * (dx * ey - dy * ex) == wy * (dx * ey - dy * ex) + r.oy * (dx * ey - dy * ex))
        by (nonlinear_arith);
}

/// A segment that runs in the ray's own direction (its edge a positive
/// multiple `b / a` of the ray's direction) is never hit.
pub proof fn lemma_same_direction_no_hit(r: Ray, s: Segment, a: int, b: int)
    requires
        a > 0,
        b > 0,
        a * edge_x(s) == b * r.dx,
        a * edge_y(s) == b * r.dy,
    ensures
        !hits(r, s),
{
    let ex = edge_x(s);
    let ey = edge_y(s);
    let dx = r.dx as int;
    let dy = r.dy as int;
    assert(a * (dx * ey - dy * ex) == dx * (a * ey) - dy * (a * ex)) by (nonlinear_arith);
    assert(dx * (b * dy) - dy * (b * dx) == 0) by (nonlinear_arith);
    assert(a * (dx * ey - dy * ex) == 0);
    assert(dx * ey - dy * ex == 0) by (nonlinear_arith)
        requires a * (dx * ey - dy * ex) == 0, a > 0;
}

/// A solution whose segment parameter `seg_num / (scale * system_det)` lies
/// below 0 or above 1 is no hit, whatever its ray parameter.
pub proof fn lemma_outside_segment_no_hit(r: Ray, s: Segment)
    requires
        r.scale >= 1,
        system_det(r, s) != 0,
        seg_num(r, s) * system_det(r, s) < 0 || seg_num(r, s) * system_det(r, s) > r.scale
            * system_det(r, s) * system_det(r, s),
    ensures
        !hits(r, s),
{
    lemma_sign_normalized(r, s);
    let d = system_det(r, s);
    let u = seg_num(r, s);
    let q = r.scale as int;
    if d < 0 {
        assert(pos_seg_num(r, s) * pos_det(r, s) == u * d) by (nonlinear_arith)
            requires pos_seg_num(r, s) == -u, pos_det(r, s) == -d;
        assert(q * pos_det(r, s) * pos_det(r, s) == q * d * d) by (nonlinear_arith)
            requires pos_det(r, s) == -d;
    } else {
        assert(pos_seg_num(r, s) * pos_det(r, s) == u * d);
        assert(q * pos_det(r, s) * pos_det(r, s) == q * d * d);
    }
    let pu = pos_seg_num(r, s);
    let pd = pos_det(r, s);
    assert(pd > 0);
    if pu >= 0 && pu <= q * pd {
        assert(pu * pd >= 0) by (nonlinear_arith) requires pu >= 0, pd > 0;
        assert(pu * pd <= q * pd * pd) by (nonlinear_arith) requires pu <= q * pd, pd > 0;
    }
}

/// A hit's denominators are positive.
pub proof fn lemma_hit_denominators(r: Ray, s: Segment)
    requires
        hits(r, s),
        r.scale >= 1,
    ensures
        pos_det(r, s) > 0,
        r.scale * pos_det(r, s) > 0,
{
    lemma_sign_normalized(r, s);
    assert(r.scale * pos_det(r, s) > 0) by (nonlinear_arith)
        requires r.scale >= 1, pos_det(r, s) > 0;
}

/// For positive denominators: `e / f < c / d <= a / b` gives `e / f < a / b`.
proof fn lemma_frac_trans(a: int, b: int, c: int, d: int, e: int, f: int)
    requires
        b > 0,
        d > 0,
        f > 0,
        !(a * d < c * b),
        e * d < c * f,
    ensures
        e * b < a * f,
{
    assert(a * d * f >= c * b * f) by (nonlinear_arith)
        requires a * d >= c * b, f > 0;
    assert(e * d * b < c * f * b) by (nonlinear_arith)
        requires e * d < c * f, b > 0;
    assert(c * b * f == c * f * b) by (nonlinear_arith);
    assert((e * b) * d < (a * f) * d) by (nonlinear_arith)
        requires a * d * f >= c * b * f, e * d * b < c * f * b, c * b * f == c * f * b;
    assert(e * b < a * f) by (nonlinear_arith)
        requires (e * b) * d < (a * f) * d, d > 0;
}

proof fn lemma_sign_normalized(r: Ray, s: Segment)
    ensures
        system_det(r, s) < 0 ==> pos_det(r, s) == -system_det(r, s) && pos_ray_num(r, s)
            == -ray_num(r, s) && pos_seg_num(r, s) == -seg_num(r, s),
        system_det(r, s) >= 0 ==> pos_det(r, s) == system_det(r, s) && pos_ray_num(r, s)
            == ray_num(r, s) && pos_seg_num(r, s) == seg_num(r, s),
{
}

proof fn lemma_products_fit(r: Ray, s: Segment)
    requires
        r.in_range(),
        s.in_range(),
    ensures
        -0x40_0000_0000 <= offset_x(r, s) <= 0x40_0000_0000,
        -0x40_0000_0000 <= offset_y(r, s) <= 0x40_0000_0000,
        -0x40_0000 <= edge_x(s) <= 0x40_0000,
        -0x40_0000 <= edge_y(s) <= 0x40_0000,
        -0x8000_0000_0000_0000 <= system_det(r, s) <= 0x8000_0000_0000_0000,
        -0x2000_0000_0000_0000 <= ray_num(r, s) <= 0x2000_0000_0000_0000,
        -0x8000_0000_0000_0000_0000 <= seg_num(r, s) <= 0x8000_0000_0000_0000_0000,
        -0x4000_0000_0000_0000 <= r.dx * edge_y(s) <= 0x4000_0000_0000_0000,
        -0x4000_0000_0000_0000 <= r.dy * edge_x(s) <= 0x4000_0000_0000_0000,
        -0x1000_0000_0000_0000 <= offset_x(r, s) * edge_y(s) <= 0x1000_0000_0000_0000,
        -0x1000_0000_0000_0000 <= offset_y(r, s) * edge_x(s) <= 0x1000_0000_0000_0000,
        -0x4000_0000_0000_0000_0000 <= offset_x(r, s) * r.dy <= 0x4000_0000_0000_0000_0000,
        -0x4000_0000_0000_0000_0000 <= offset_y(r, s) * r.dx <= 0x4000_0000_0000_0000_0000,
        -0x2000_0000_0000_0000 <= pos_ray_num(r, s) <= 0x2000_0000_0000_0000,
        0 <= pos_det(r, s) <= 0x8000_0000_0000_0000,
        system_det(r, s) != 0 ==> pos_det(r, s) > 0,
{
    lemma_sign_normalized(r, s);
    let ox = offset_x(r, s);
    let oy = offset_y(r, s);
    let ex = edge_x(s);
    let ey = edge_y(s);
    let dx = r.dx as int;
    let dy = r.dy as int;
    assert(-0x40_0000_0000 <= ox <= 0x40_0000_0000) by (nonlinear_arith)
        requires ox == r.scale * s.a.x - r.ox, 1 <= r.scale <= 16384,
            -2097152 <= s.a.x <= 2097152, -137438953472 <= r.ox <= 137438953472;
    assert(-0x40_0000_0000 <= oy <= 0x40_0000_0000) by (nonlinear_arith)
        requires oy == r.scale * s.a.y - r.oy, 1 <= r.scale <= 16384,
            -2097152 <= s.a.y <= 2097152, -137438953472 <= r.oy <= 137438953472;
    assert(-0x4000_0000_0000_0000 <= dx * ey <= 0x4000_0000_0000_0000) by (nonlinear_arith)
        requires -0x100_0000_0000 <= dx <= 0x100_0000_0000, -0x40_0000 <= ey <= 0x40_0000;
    assert(-0x4000_0000_0000_0000 <= dy * ex <= 0x4000_0000_0000_0000) by (nonlinear_arith)
        requires -0x100_0000_0000 <= dy <= 0x100_0000_0000, -0x40_0000 <= ex <= 0x40_0000;
    assert(-0x1000_0000_0000_0000 <= ox * ey <= 0x1000_0000_0000_0000) by (nonlinear_arith)
        requires -0x40_0000_0000 <= ox <= 0x40_0000_0000, -0x40_0000 <= ey <= 0x40_0000;
    assert(-0x1000_0000_0000_0000 <= oy * ex <= 0x1000_0000_0000_0000) by (nonlinear_arith)
        requires -0x40_0000_0000 <= oy <= 0x40_0000_0000, -0x40_0000 <= ex <= 0x40_0000;
    assert(-0x4000_0000_0000_0000_0000 <= ox * dy <= 0x4000_0000_0000_0000_0000) by (nonlinear_arith)
        requires -0x40_0000_0000 <= ox <= 0x40_0000_0000, -0x100_0000_0000 <= dy <= 0x100_0000_0000;
    assert(-0x4000_0000_0000_0000_0000 <= oy * dx <= 0x4000_0000_0000_0000_0000) by (nonlinear_arith)
        requires -0x40_0000_0000 <= oy <= 0x40_0000_0000, -0x100_0000_0000 <= dx <= 0x100_0000_0000;
}

/// Where the ray `r` meets the segment `s`, if it does.
///
/// A ray parallel to the segment, in the same or the opposite direction, or a
/// segment whose ends coincide, gives no hit.
pub fn get_intersection(r: &Ray, s: &Segment) -> (res: Option<Intersection>)
    requires
        r.in_range(),
        s.in_range(),
    ensures
        match res {
            Some(h) => hits(*r, *s) && is_hit_of(h, *r, *s),
            None => !hits(*r, *s),
        },
{
    proof {
        lemma_products_fit(*r, *s);
    }
    let scale = r.scale as i128;
    let ox = scale * (s.a.x as i128) - (r.ox as i128);
    let oy = scale * (s.a.y as i128) - (r.oy as i128);
    let ex = (s.b.x as i128) - (s.a.x as i128);
    let ey = (s.b.y as i128) - (s.a.y as i128);
    let dx = r.dx as i128;
    let dy = r.dy as i128;
    let det = dx * ey - dy * ex;
    if det == 0 {
        return None;
    }
    let rn = ox * ey - oy * ex;
    let sn = ox * dy - oy * dx;
    proof {
        lemma_sign_normalized(*r, *s);
    }
    assert(det == system_det(*r, *s));
    assert(rn == ray_num(*r, *s));
    assert(sn == seg_num(*r, *s));
    let d: i128;
    let t: i128;
    let u: i128;
    if det < 0 {
        d = -det;
        t = -rn;
        u = -sn;
        assert(d == pos_det(*r, *s));
        assert(t == pos_ray_num(*r, *s));
        assert(u == pos_seg_num(*r, *s));
    } else {
        d = det;
        t = rn;
        u = sn;
        assert(d == pos_det(*r, *s));
        assert(t == pos_ray_num(*r, *s));
        assert(u == pos_seg_num(*r, *s));
    }
    assert(scale * d <= 0x4000_0000_0000_0000_0000_0000) by (nonlinear_arith)
        requires 1 <= scale <= 16384, 0 < d <= 0x8000_0000_0000_0000;
    let bound = scale * d;
    assert(bound == r.scale * pos_det(*r, *s));
    if t < 0 || u < 0 || u > bound {
        return None;
    }
    let ox0 = r.ox as i128;
    let oy0 = r.oy as i128;
    assert(-0x10_0000_0000_0000_0000_0000_0000 <= ox0 * d <= 0x10_0000_0000_0000_0000_0000_0000)
        by (nonlinear_arith)
        requires -137438953472 <= ox0 <= 137438953472, 0 < d <= 0x8000_0000_0000_0000;
    assert(-0x10_0000_0000_0000_0000_0000_0000 <= oy0 * d <= 0x10_0000_0000_0000_0000_0000_0000)
        by (nonlinear_arith)
        requires -137438953472 <= oy0 <= 137438953472, 0 < d <= 0x8000_0000_0000_0000;
    assert(-0x20_0000_0000_0000_0000_0000_0000 <= t * dx <= 0x20_0000_0000_0000_0000_0000_0000)
        by (nonlinear_arith)
        requires 0 <= t <= 0x2000_0000_0000_0000, -0x100_0000_0000 <= dx <= 0x100_0000_0000;
    assert(-0x20_0000_0000_0000_0000_0000_0000 <= t * dy <= 0x20_0000_0000_0000_0000_0000_0000)
        by (nonlinear_arith)
        requires 0 <= t <= 0x2000_0000_0000_0000, -0x100_0000_0000 <= dy <= 0x100_0000_0000;
    Some(Intersection { x: ox0 * d + t * dx, y: oy0 * d + t * dy, den: scale * d, param: t, param_den: d })
}

/// The nearest hit of the ray `r` among `segments`; of hits at equal
/// distance the one on the earliest segment. `None` when no segment is hit.
pub fn closest_intersect(segments: &Vec<Segment>, r: &Ray) -> (res: Option<Intersection>)
    requires
        r.in_range(),
        all_in_range(segments@),
    ensures
        match res {
            Some(h) => exists|i: int| #[trigger] is_closest_at(h, *r, segments@, i),
            None => forall|i: int| 0 <= i < segments@.len() ==> !hits(*r, #[trigger] segments@[i]),
        },
        res == closest_hit(*r, segments@),
{
    let mut closest: Option<Intersection> = None;
    let ghost mut best: int = 0;
    let mut k: usize = 0;
    while k < segments.len()
        invariant
            r.in_range(),
            all_in_range(segments@),
            k <= segments@.len(),
            match closest {
                Some(h) => is_closest_in(h, *r, segments@, k as int, best),
                None => forall|i: int| 0 <= i < k ==> !hits(*r, #[trigger] segments@[i]),
            },
        decreases segments.len() - k,
    {
        if let Some(h) = get_intersection(r, &segments[k]) {
            match closest {
                Some(c) => {
                    proof {
                        lemma_products_fit(*r, segments@[best]);
                        lemma_products_fit(*r, segments@[k as int]);
                        assert(-0x2000_0000_0000_0000 <= h.param <= 0x2000_0000_0000_0000);
                        assert(0 < c.param_den <= 0x8000_0000_0000_0000);
                        assert(-0x2000_0000_0000_0000 <= c.param <= 0x2000_0000_0000_0000);
                        assert(0 < h.param_den <= 0x8000_0000_0000_0000);
                        assert(-0x4000_0000_0000_0000_0000_0000_0000_0000 <= h.param * c.param_den
                            <= 0x4000_0000_0000_0000_0000_0000_0000_0000) by (nonlinear_arith)
                            requires -0x2000_0000_0000_0000 <= h.param <= 0x2000_0000_0000_0000,
                                0 < c.param_den <= 0x8000_0000_0000_0000;
                        assert(-0x4000_0000_0000_0000_0000_0000_0000_0000 <= c.param * h.param_den
                            <= 0x4000_0000_0000_0000_0000_0000_0000_0000) by (nonlinear_arith)
                            requires -0x2000_0000_0000_0000 <= c.param <= 0x2000_0000_0000_0000,
                                0 < h.param_den <= 0x8000_0000_0000_0000;
                    }
                    if h.param * c.param_den < c.param * h.param_den {
                        proof {
                            assert forall|j: int| 0 <= j < k && hits(*r, #[trigger] segments@[j]) implies
                                h.param * pos_det(*r, segments@[j]) < pos_ray_num(*r, segments@[j]) * h.param_den
                            by {
                                lemma_products_fit(*r, segments@[j]);
                                lemma_frac_trans(pos_ray_num(*r, segments@[j]), pos_det(*r, segments@[j]),
                                    c.param as int, c.param_den as int, h.param as int, h.param_den as int);
                            }
                            best = k as int;
                        }
                        closest = Some(h);
                    }
                },
                None => {
                    proof {
                        best = k as int;
                    }
                    closest = Some(h);
                },
            }
        }
        k += 1;
    }
    proof {
        if let Some(h) = closest {
            assert(is_closest_at(h, *r, segments@, best));
            let (h2, i2) = choose|h2: Intersection, i2: int| is_closest_at(h2, *r, segments@, i2);
            lemma_closest_unique(h, h2, *r, segments@, best, i2);
        } else {
            if exists|h: Intersection, i: int| #[trigger] is_closest_at(h, *r, segments@, i) {
                let (h, i) = choose|h: Intersection, i: int| is_closest_at(h, *r, segments@, i);
                assert(hits(*r, segments@[i]));
            }
        }
    }
    closest
}

} // verus!
