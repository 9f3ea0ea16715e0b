use vstd::prelude::*;
use crate::geometry::{
    Point, Segment, Ray, Intersection, COORD_LIMIT, all_in_range, closest_hit, closest_intersect,
};
use crate::geometry::{hits, is_closest_at, is_hit_of, lemma_hit_denominators};
use crate::sweep::{
    SweepKey, assemble, key_lt, keys_in_range, lemma_sort_by_key_members, lemma_sort_by_key_sorted,
    sort_by_key, sorted_by_key,
};

verus! {

/// The endpoints of `segs`, each segment giving its start and then its end.
pub open spec fn endpoints(segs: Seq<Segment>) -> Seq<Point>
    decreases segs.len(),
{
    if segs.len() == 0 {
        Seq::empty()
    } else {
        endpoints(segs.drop_last()).push(segs.last().a).push(segs.last().b)
    }
}

/// The distinct points of `s`, in the order of their first occurrence.
pub open spec fn distinct(s: Seq<Point>) -> Seq<Point>
    decreases s.len(),
{
    if s.len() == 0 {
        Seq::empty()
    } else if distinct(s.drop_last()).contains(s.last()) {
        distinct(s.drop_last())
    } else {
        distinct(s.drop_last()).push(s.last())
    }
}

fn contains_point(v: &Vec<Point>, p: Point) -> (r: bool)
    ensures
        r == v@.contains(p),
{
    let mut i: usize = 0;
    while i < v.len()
        invariant
            i <= v@.len(),
            forall|j: int| 0 <= j < i ==> v@[j] != p,
        decreases v.len() - i,
    {
        if v[i] == p {
            return true;
        }
        i += 1;
    }
    false
}

/// The distinct endpoints of `segments`, in the order of their first
/// occurrence. Two points are the same when both coordinates agree.
pub fn unique_points_from_segments(segments: &Vec<Segment>) -> (r: Vec<Point>)
    requires
        all_in_range(segments@),
    ensures
        r@ == distinct(endpoints(segments@)),
        forall|i: int| 0 <= i < r@.len() ==> (#[trigger] r@[i]).in_range(),
{
    let mut out: Vec<Point> = Vec::new();
    let mut k: usize = 0;
    while k < segments.len()
        invariant
            k <= segments@.len(),
            out@ == distinct(endpoints(segments@.take(k as int))),
            all_in_range(segments@),
            forall|i: int| 0 <= i < out@.len() ==> (#[trigger] out@[i]).in_range(),
        decreases segments.len() - k,
    {
        let seg = segments[k];
        assert(segments@[k as int].in_range());
        let ghost e = endpoints(segments@.take(k as int));
        proof {
            assert(segments@.take(k as int + 1).drop_last() =~= segments@.take(k as int));
            assert(segments@.take(k as int + 1).last() == seg);
            assert(endpoints(segments@.take(k as int + 1)) == e.push(seg.a).push(seg.b));
            assert(e.push(seg.a).push(seg.b).drop_last() =~= e.push(seg.a));
            assert(e.push(seg.a).drop_last() =~= e);
        }
        if !contains_point(&out, seg.a) {
            out.push(seg.a);
        }
        assert(out@ == distinct(e.push(seg.a)));
        if !contains_point(&out, seg.b) {
            out.push(seg.b);
        }
        assert(out@ == distinct(e.push(seg.a).push(seg.b)));
        k += 1;
    }
    assert(segments@.take(segments@.len() as int) =~= segments@);
    out
}

/// The occluding and bounding segments of a scene, with their distinct
/// endpoints, fixed once built.
pub struct Sight {
    segments: Vec<Segment>,
    unique_points: Vec<Point>,
}

impl Sight {
    /// All segments: the occluders, then the boundary.
    pub closed spec fn segs(&self) -> Seq<Segment> {
        self.segments@
    }

    /// The distinct segment endpoints.
    pub closed spec fn vertices(&self) -> Seq<Point> {
        self.unique_points@
    }

    pub open spec fn wf(&self) -> bool {
        &&& all_in_range(self.segs())
        &&& self.vertices() == distinct(endpoints(self.segs()))
        &&& forall|i: int| 0 <= i < self.vertices().len() ==> (#[trigger] self.vertices()[i]).in_range()
    }

    /// A scene of occluders and boundary segments; the two kinds block rays
    /// alike.
    pub fn new(inner_segments: Vec<Segment>, border_segments: Vec<Segment>) -> (r: Sight)
        requires
            all_in_range(inner_segments@),
            all_in_range(border_segments@),
        ensures
            r.wf(),
            r.segs() == inner_segments@ + border_segments@,
    {
        let mut segments = inner_segments;
        let mut k: usize = 0;
        while k < border_segments.len()
            invariant
                k <= border_segments@.len(),
                segments@ == inner_segments@ + border_segments@.take(k as int),
            decreases border_segments.len() - k,
        {
            segments.push(border_segments[k]);
            k += 1;
            assert(segments@ =~= inner_segments@ + border_segments@.take(k as int));
        }
        assert(border_segments@.take(border_segments@.len() as int) =~= border_segments@);
        assert forall|i: int| 0 <= i < segments@.len() implies (#[trigger] segments@[i]).in_range() by {
            if i >= inner_segments@.len() {
                assert(segments@[i] == border_segments@[i - inner_segments@.len()]);
            }
        }
        let unique_points = unique_points_from_segments(&segments);
        Sight { segments, unique_points }
    }

    /// The distinct segment endpoints, in the order of their first occurrence.
    pub fn unique_points(&self) -> (r: &Vec<Point>)
        ensures
            r@ == self.vertices(),
    {
        &self.unique_points
    }

    /// The boundary of what the point `source` sees: for each vertex, the
    /// nearest hits of two rays turned slightly to either side of it, in the
    /// order of the rays' own angles around `source` (rays of equal angle in
    /// the order they were cast).
    pub fn sight_polygon(&self, source: Point) -> (r: Vec<Intersection>)
        requires
            self.wf(),
            source.in_range(),
        ensures
            r@ == sweep_result(self.segs(), angular_probes(self.vertices(), source), 2 * self.vertices().len() as int),
    {
        let ghost probes = angular_probes(self.vertices(), source);
        let mut entries: Vec<(Intersection, SweepKey)> = Vec::new();
        let mut i: usize = 0;
        while i < self.unique_points.len()
            invariant
                self.wf(),
                source.in_range(),
                i <= self.vertices().len(),
                probes == angular_probes(self.vertices(), source),
                entries@ == collect_hits(self.segs(), probes, 2 * i),
                keys_in_range(entries@),
            decreases self.unique_points.len() - i,
        {
            let v = self.unique_points[i];
            assert(v.in_range());
            let bx: i64 = if v == source { 1 } else { v.x - source.x };
            let by: i64 = if v == source { 0 } else { v.y - source.y };
            let mut side: i64 = 0;
            while side < 2
                invariant
                    self.wf(),
                    source.in_range(),
                    i < self.vertices().len(),
                    v == self.vertices()[i as int],
                    bx == base_x(v, source),
                    by == base_y(v, source),
                    0 <= side <= 2,
                    probes == angular_probes(self.vertices(), source),
                    entries@ == collect_hits(self.segs(), probes, 2 * i + side),
                    keys_in_range(entries@),
                decreases 2 - side,
            {
                let ghost n = 2 * i + side;
                assert(n / 2 == i && n % 2 == side);
                let ray = angular_ray(source, bx, by, side);
                let key = angle_key(bx, by, ray.dx, ray.dy, side);
                assert(probes(n) == (ray, key));
                let hit = closest_intersect(&self.segments, &ray);
                if let Some(h) = hit {
                    entries.push((h, key));
                }
                assert(entries@ =~= collect_hits(self.segs(), probes, n + 1));
                side += 1;
            }
            i += 1;
        }
        assemble(&entries)
    }

    /// The boundary that rays travelling along `dir` reach: for each vertex,
    /// the nearest hits of two rays passing slightly to either side of it,
    /// ordered by where they cross the axis normal to `dir`.
    pub fn isometric_sight(&self, dir: Point) -> (r: Vec<Intersection>)
        requires
            self.wf(),
            dir.in_range(),
        ensures
            r@ == sweep_result(self.segs(), parallel_probes(self.vertices(), dir), 2 * self.vertices().len() as int),
    {
        let ghost probes = parallel_probes(self.vertices(), dir);
        let mut entries: Vec<(Intersection, SweepKey)> = Vec::new();
        let mut i: usize = 0;
        while i < self.unique_points.len()
            invariant
                self.wf(),
                dir.in_range(),
                i <= self.vertices().len(),
                probes == parallel_probes(self.vertices(), dir),
                entries@ == collect_hits(self.segs(), probes, 2 * i),
                keys_in_range(entries@),
            decreases self.unique_points.len() - i,
        {
            let v = self.unique_points[i];
            assert(v.in_range());
            let mut side: i64 = 0;
            while side < 2
                invariant
                    self.wf(),
                    dir.in_range(),
                    i < self.vertices().len(),
                    v == self.vertices()[i as int],
                    v.in_range(),
                    0 <= side <= 2,
                    probes == parallel_probes(self.vertices(), dir),
                    entries@ == collect_hits(self.segs(), probes, 2 * i + side),
                    keys_in_range(entries@),
                decreases 2 - side,
            {
                let ghost n = 2 * i + side;
                assert(n / 2 == i && n % 2 == side);
                let (ray, key) = parallel_probe(v, dir, side);
                assert(probes(n) == (ray, key));
                let hit = closest_intersect(&self.segments, &ray);
                if let Some(h) = hit {
                    entries.push((h, key));
                }
                assert(entries@ =~= collect_hits(self.segs(), probes, n + 1));
                side += 1;
            }
            i += 1;
        }
        assemble(&entries)
    }
}

/// A probe ray's direction is the vertex direction times this, plus or minus
/// its normal: a turn of about 1e-5 radians.
pub const JITTER: i64 = 100000;

/// Parallel probes start a normal's length over this away from the vertex.
pub const ISO_SCALE: i64 = 10000;

/// Direction from `src` towards `v`; along the x axis where they coincide.
pub open spec fn base_x(v: Point, src: Point) -> int {
    if v == src { 1 } else { v.x - src.x }
}

pub open spec fn base_y(v: Point, src: Point) -> int {
    if v == src { 0 } else { v.y - src.y }
}

/// The ray from `src` towards `v`, turned clockwise (`side` 0) or
/// counterclockwise (`side` 1).
pub open spec fn angular_probe_ray(v: Point, src: Point, side: int) -> Ray {
    let bx = base_x(v, src);
    let by = base_y(v, src);
    Ray {
        ox: src.x,
        oy: src.y,
        scale: 1,
        dx: (if side == 0 { JITTER * bx + by } else { JITTER * bx - by }) as i64,
        dy: (if side == 0 { JITTER * by - bx } else { JITTER * by + bx }) as i64,
    }
}

/// Sweep position of the direction `(dx, dy)`: ascending in its angle in
/// `(-pi, pi]`.
pub open spec fn direction_key(dx: int, dy: int) -> SweepKey {
    if dy < 0 {
        SweepKey { group: 0, num: dx as i64, den: (-dy) as i64 }
    } else if dy == 0 && dx > 0 {
        SweepKey { group: 1, num: 0, den: 1 }
    } else if dy > 0 {
        SweepKey { group: 2, num: (-dx) as i64, den: dy as i64 }
    } else {
        SweepKey { group: 3, num: 0, den: 1 }
    }
}

/// Sweep position of the probe of direction `(dx, dy)` turned from the vertex
/// direction `(bx, by)`: the angle of its own direction, counted above `pi`
/// where a counterclockwise turn from the upper half-plane crossed the
/// negative x axis, and below `-pi` where a clockwise turn from the lower
/// half-plane did.
pub open spec fn angular_key(bx: int, by: int, dx: int, dy: int, side: int) -> SweepKey {
    let k = direction_key(dx, dy);
    if side == 1 && (by > 0 || (by == 0 && bx < 0)) && dy < 0 {
        SweepKey { group: 4, num: k.num, den: k.den }
    } else if side == 0 && by < 0 && dy > 0 {
        SweepKey { group: -2i64, num: k.num, den: k.den }
    } else if side == 0 && by < 0 && dy == 0 && dx < 0 {
        SweepKey { group: -1i64, num: k.num, den: k.den }
    } else {
        k
    }
}

pub open spec fn angular_probe(verts: Seq<Point>, src: Point, i: int) -> (Ray, SweepKey) {
    let v = verts[i / 2];
    let r = angular_probe_ray(v, src, i % 2);
    (r, angular_key(base_x(v, src), base_y(v, src), r.dx as int, r.dy as int, i % 2))
}

pub open spec fn angular_probes(verts: Seq<Point>, src: Point) -> spec_fn(int) -> (Ray, SweepKey) {
    |i: int| angular_probe(verts, src, i)
}

/// The ray along `dir` from `v` shifted by plus (`side` 0) or minus
/// (`side` 1) the normal `(dir.y, -dir.x)` over `ISO_SCALE`, keyed by the
/// projection of its origin on that normal, times `ISO_SCALE`.
pub open spec fn parallel_probe_of(v: Point, dir: Point, side: int) -> (Ray, SweepKey) {
    let nx = dir.y as int;
    let ny = -dir.x;
    let ox = if side == 0 { ISO_SCALE * v.x + nx } else { ISO_SCALE * v.x - nx };
    let oy = if side == 0 { ISO_SCALE * v.y + ny } else { ISO_SCALE * v.y - ny };
    (
        Ray { ox: ox as i64, oy: oy as i64, scale: ISO_SCALE, dx: dir.x, dy: dir.y },
        SweepKey { group: 0, num: (nx * ox + ny * oy) as i64, den: 1 },
    )
}

pub open spec fn parallel_probes(verts: Seq<Point>, dir: Point) -> spec_fn(int) -> (Ray, SweepKey) {
    |i: int| parallel_probe_of(verts[i / 2], dir, i % 2)
}

/// The nearest hits of the first `n` probes, each with its probe's key;
/// probes that hit nothing are left out.
pub open spec fn collect_hits(segs: Seq<Segment>, probes: spec_fn(int) -> (Ray, SweepKey), n: int) -> Seq<
    (Intersection, SweepKey),
>
    decreases n,
{
    if n <= 0 {
        Seq::empty()
    } else {
        match closest_hit(probes(n - 1).0, segs) {
            Some(h) => collect_hits(segs, probes, n - 1).push((h, probes(n - 1).1)),
            None => collect_hits(segs, probes, n - 1),
        }
    }
}

/// The hits of the first `n` probes in the stable order of their keys.
pub open spec fn sweep_result(segs: Seq<Segment>, probes: spec_fn(int) -> (Ray, SweepKey), n: int) -> Seq<
    Intersection,
> {
    sort_by_key(collect_hits(segs, probes, n)).map_values(|e: (Intersection, SweepKey)| e.0)
}

fn angular_ray(source: Point, bx: i64, by: i64, side: i64) -> (r: Ray)
    requires
        source.in_range(),
        -2 * COORD_LIMIT <= bx <= 2 * COORD_LIMIT,
        -2 * COORD_LIMIT <= by <= 2 * COORD_LIMIT,
        0 <= side <= 1,
    ensures
        r.in_range(),
        r == (Ray {
            ox: source.x,
            oy: source.y,
            scale: 1,
            dx: (if side == 0 { JITTER * bx + by } else { JITTER * bx - by }) as i64,
            dy: (if side == 0 { JITTER * by - bx } else { JITTER * by + bx }) as i64,
        }),
{
    let dx = if side == 0 { JITTER * bx + by } else { JITTER * bx - by };
    let dy = if side == 0 { JITTER * by - bx } else { JITTER * by + bx };
    Ray { ox: source.x, oy: source.y, scale: 1, dx, dy }
}

fn angle_key(bx: i64, by: i64, dx: i64, dy: i64, side: i64) -> (r: SweepKey)
    requires
        -0x100_0000_0000 <= dx <= 0x100_0000_0000,
        -0x100_0000_0000 <= dy <= 0x100_0000_0000,
        0 <= side <= 1,
    ensures
        r == angular_key(bx as int, by as int, dx as int, dy as int, side as int),
        r.in_range(),
{
    let k = if dy < 0 {
        SweepKey { group: 0, num: dx, den: -dy }
    } else if dy == 0 && dx > 0 {
        SweepKey { group: 1, num: 0, den: 1 }
    } else if dy > 0 {
        SweepKey { group: 2, num: -dx, den: dy }
    } else {
        SweepKey { group: 3, num: 0, den: 1 }
    };
    if side == 1 && (by > 0 || (by == 0 && bx < 0)) && dy < 0 {
        SweepKey { group: 4, num: k.num, den: k.den }
    } else if side == 0 && by < 0 && dy > 0 {
        SweepKey { group: -2, num: k.num, den: k.den }
    } else if side == 0 && by < 0 && dy == 0 && dx < 0 {
        SweepKey { group: -1, num: k.num, den: k.den }
    } else {
        k
    }
}

fn parallel_probe(v: Point, dir: Point, side: i64) -> (r: (Ray, SweepKey))
    requires
        v.in_range(),
        dir.in_range(),
        0 <= side <= 1,
    ensures
        r == parallel_probe_of(v, dir, side as int),
        r.0.in_range(),
        r.1.in_range(),
{
    let nx = dir.y;
    let ny = -dir.x;
    let ox = if side == 0 { ISO_SCALE * v.x + nx } else { ISO_SCALE * v.x - nx };
    let oy = if side == 0 { ISO_SCALE * v.y + ny } else { ISO_SCALE * v.y - ny };
    assert(-0x100_0000_0000_0000 <= nx * ox <= 0x100_0000_0000_0000) by (nonlinear_arith)
        requires -2097152 <= nx <= 2097152, -0x8_0000_0000 <= ox <= 0x8_0000_0000;
    assert(-0x100_0000_0000_0000 <= ny * oy <= 0x100_0000_0000_0000) by (nonlinear_arith)
        requires -2097152 <= ny <= 2097152, -0x8_0000_0000 <= oy <= 0x8_0000_0000;
    (
        Ray { ox, oy, scale: ISO_SCALE, dx: dir.x, dy: dir.y },
        SweepKey { group: 0, num: nx * ox + ny * oy, den: 1 },
    )
}

/// Numerator of where the point `h` falls on the axis normal to `dir`, the
/// denominator being `h.den`.
pub open spec fn normal_offset(h: Intersection, dir: Point) -> int {
    dir.y * h.x - dir.x * h.y
}

/// A hit of a parallel probe projects onto the normal where its probe's
/// origin does.
proof fn lemma_parallel_hit_projection(v: Point, dir: Point, side: int, segs: Seq<Segment>)
    requires
        v.in_range(),
        dir.in_range(),
        closest_hit(parallel_probe_of(v, dir, side).0, segs) is Some,
    ensures
        ({
            let h = closest_hit(parallel_probe_of(v, dir, side).0, segs)->Some_0;
            let k = parallel_probe_of(v, dir, side).1;
            &&& normal_offset(h, dir) * ISO_SCALE == k.num * h.den
            &&& h.den > 0
            &&& k.group == 0 && k.den == 1
        }),
{
    let (r, k) = parallel_probe_of(v, dir, side);
    let (h, i) = choose|h: Intersection, i: int| is_closest_at(h, r, segs, i);
    assert(is_closest_at(h, r, segs, i));
    let sg = segs[i];
    assert(hits(r, sg) && is_hit_of(h, r, sg));
    lemma_hit_denominators(r, sg);
    let nx = dir.y as int;
    let ny = -dir.x;
    let d = h.param_den as int;
    let t = h.param as int;
    let ox = r.ox as int;
    let oy = r.oy as int;
    let dx = r.dx as int;
    let dy = r.dy as int;
    assert(nx * (ox * d + t * dx) == nx * ox * d + t * (nx * dx)) by (nonlinear_arith);
    assert(ny * (oy * d + t * dy) == ny * oy * d + t * (ny * dy)) by (nonlinear_arith);
    assert(nx * dx + ny * dy == 0) by (nonlinear_arith) requires nx == dy, ny == -dx;
    assert(t * (nx * dx) + t * (ny * dy) == 0) by (nonlinear_arith) requires nx * dx + ny * dy == 0;
    assert(nx * ox * d + ny * oy * d == (nx * ox + ny * oy) * d) by (nonlinear_arith);
    let m = nx * ox + ny * oy;
    let ox0 = if side == 0 { ISO_SCALE * v.x + nx } else { ISO_SCALE * v.x - nx };
    let oy0 = if side == 0 { ISO_SCALE * v.y + ny } else { ISO_SCALE * v.y - ny };
    assert(-0x8_0000_0000 <= ox0 <= 0x8_0000_0000);
    assert(-0x8_0000_0000 <= oy0 <= 0x8_0000_0000);
    assert(ox == ox0 && oy == oy0);
    assert(-0x100_0000_0000_0000 <= nx * ox <= 0x100_0000_0000_0000) by (nonlinear_arith)
        requires -2097152 <= nx <= 2097152, -0x8_0000_0000 <= ox <= 0x8_0000_0000;
    assert(-0x100_0000_0000_0000 <= ny * oy <= 0x100_0000_0000_0000) by (nonlinear_arith)
        requires -2097152 <= ny <= 2097152, -0x8_0000_0000 <= oy <= 0x8_0000_0000;
    assert(k.num == m);
    assert(h.x == ox * d + t * dx);
    assert(h.y == oy * d + t * dy);
    assert(normal_offset(h, dir) == nx * h.x + ny * h.y) by (nonlinear_arith)
        requires nx == dir.y, ny == -dir.x, normal_offset(h, dir) == dir.y * h.x - dir.x * h.y;
    assert(normal_offset(h, dir) == m * d) by (nonlinear_arith)
        requires normal_offset(h, dir) == nx * h.x + ny * h.y, h.x == ox * d + t * dx,
            h.y == oy * d + t * dy, nx * (ox * d + t * dx) == nx * ox * d + t * (nx * dx),
            ny * (oy * d + t * dy) == ny * oy * d + t * (ny * dy),
            t * (nx * dx) + t * (ny * dy) == 0, nx * ox * d + ny * oy * d == (nx * ox + ny * oy) * d,
            m == nx * ox + ny * oy;
    assert(h.den == ISO_SCALE * d);
    assert(d > 0);
    assert(m * d * ISO_SCALE == m * (ISO_SCALE * d)) by (nonlinear_arith);
}

proof fn lemma_parallel_entries(verts: Seq<Point>, dir: Point, segs: Seq<Segment>, n: int)
    requires
        forall|i: int| 0 <= i < verts.len() ==> (#[trigger] verts[i]).in_range(),
        dir.in_range(),
        0 <= n <= 2 * verts.len(),
    ensures
        forall|j: int| 0 <= j < collect_hits(segs, parallel_probes(verts, dir), n).len() ==> {
            let e = #[trigger] collect_hits(segs, parallel_probes(verts, dir), n)[j];
            &&& normal_offset(e.0, dir) * ISO_SCALE == e.1.num * e.0.den
            &&& e.0.den > 0
            &&& e.1.group == 0 && e.1.den == 1
        },
    decreases n,
{
    if n > 0 {
        lemma_parallel_entries(verts, dir, segs, n - 1);
        let probes = parallel_probes(verts, dir);
        assert(probes(n - 1) == parallel_probe_of(verts[(n - 1) / 2], dir, (n - 1) % 2));
        let prev = collect_hits(segs, probes, n - 1);
        let cur = collect_hits(segs, probes, n);
        if closest_hit(probes(n - 1).0, segs) is Some {
            lemma_parallel_hit_projection(verts[(n - 1) / 2], dir, (n - 1) % 2, segs);
            assert forall|j: int| 0 <= j < cur.len() implies {
                let e = #[trigger] cur[j];
                &&& normal_offset(e.0, dir) * ISO_SCALE == e.1.num * e.0.den
                &&& e.0.den > 0
                &&& e.1.group == 0 && e.1.den == 1
            } by {
                if j < prev.len() {
                    assert(cur[j] == prev[j]);
                }
            }
        } else {
            assert(cur == prev);
        }
    }
}

/// Rays along `dir` give their hits in ascending order of the hits'
/// projections onto the normal `(dir.y, -dir.x)`.
pub proof fn lemma_parallel_sweep_ordered(verts: Seq<Point>, dir: Point, segs: Seq<Segment>)
    requires
        forall|i: int| 0 <= i < verts.len() ==> (#[trigger] verts[i]).in_range(),
        dir.in_range(),
    ensures
        ({
            let r = sweep_result(segs, parallel_probes(verts, dir), 2 * verts.len() as int);
            forall|i: int| 0 <= i < r.len() - 1 ==> normal_offset(#[trigger] r[i], dir) * r[i + 1].den
                <= normal_offset(r[i + 1], dir) * r[i].den
        }),
{
    let n = 2 * verts.len() as int;
    let c = collect_hits(segs, parallel_probes(verts, dir), n);
    lemma_parallel_entries(verts, dir, segs, n);
    lemma_sort_by_key_members(c);
    lemma_sort_by_key_sorted(c);
    let s = sort_by_key(c);
    let r = sweep_result(segs, parallel_probes(verts, dir), n);
    assert forall|i: int| 0 <= i < r.len() - 1 implies normal_offset(#[trigger] r[i], dir) * r[i + 1].den
        <= normal_offset(r[i + 1], dir) * r[i].den by {
        let a = s[i];
        let b = s[i + 1];
        assert(r[i] == a.0 && r[i + 1] == b.0);
        assert(c.contains(a));
        assert(c.contains(b));
        let ja = choose|j: int| 0 <= j < c.len() && c[j] == a;
        let jb = choose|j: int| 0 <= j < c.len() && c[j] == b;
        assert(c[ja] == a && c[jb] == b);
        assert(!key_lt(b.1, a.1));
        assert(a.1.num <= b.1.num);
        let pa = normal_offset(a.0, dir);
        let pb = normal_offset(b.0, dir);
        assert(pa * b.0.den <= pb * a.0.den) by (nonlinear_arith)
            requires pa * ISO_SCALE == a.1.num * a.0.den, pb * ISO_SCALE == b.1.num * b.0.den,
                a.0.den > 0, b.0.den > 0, a.1.num <= b.1.num, ISO_SCALE == 10000;
    }
}

/// Asking a scene twice for the same view gives the same answer.
pub proof fn lemma_sweeps_repeatable(
    s: Sight,
    source: Point,
    dir: Point,
    p1: Seq<Intersection>,
    p2: Seq<Intersection>,
    q1: Seq<Intersection>,
    q2: Seq<Intersection>,
)
    requires
        p1 == sweep_result(s.segs(), angular_probes(s.vertices(), source), 2 * s.vertices().len() as int),
        p2 == sweep_result(s.segs(), angular_probes(s.vertices(), source), 2 * s.vertices().len() as int),
        q1 == sweep_result(s.segs(), parallel_probes(s.vertices(), dir), 2 * s.vertices().len() as int),
        q2 == sweep_result(s.segs(), parallel_probes(s.vertices(), dir), 2 * s.vertices().len() as int),
    ensures
        p1 == p2,
        q1 == q2,
{
}

/// `e` is the nearest hit of one of the first `n` probes, with that probe's key.
pub open spec fn from_probe(
    segs: Seq<Segment>,
    probes: spec_fn(int) -> (Ray, SweepKey),
    n: int,
    e: (Intersection, SweepKey),
) -> bool {
    exists|p: int|
        0 <= p < n && closest_hit((#[trigger] probes(p)).0, segs) == Some(e.0) && e.1 == probes(p).1
}

proof fn lemma_collect_hits_from_probes(
    segs: Seq<Segment>,
    probes: spec_fn(int) -> (Ray, SweepKey),
    n: int,
)
    ensures
        forall|j: int| 0 <= j < collect_hits(segs, probes, n).len() ==> from_probe(
            segs,
            probes,
            n,
            #[trigger] collect_hits(segs, probes, n)[j],
        ),
    decreases n,
{
    if n > 0 {
        lemma_collect_hits_from_probes(segs, probes, n - 1);
        let prev = collect_hits(segs, probes, n - 1);
        let cur = collect_hits(segs, probes, n);
        assert forall|j: int| 0 <= j < cur.len() implies from_probe(segs, probes, n, #[trigger] cur[j]) by {
            if j < prev.len() {
                assert(cur[j] == prev[j]);
                assert(from_probe(segs, probes, n - 1, prev[j]));
                let p = choose|p: int|
                    0 <= p < n - 1 && closest_hit((#[trigger] probes(p)).0, segs) == Some(prev[j].0)
                        && prev[j].1 == probes(p).1;
                assert(0 <= p < n && closest_hit(probes(p).0, segs) == Some(cur[j].0) && cur[j].1 == probes(p).1);
            } else {
                assert(closest_hit(probes(n - 1).0, segs) == Some(cur[j].0));
                assert(cur[j].1 == probes(n - 1).1);
            }
        }
    }
}

/// Each point of a sweep is the nearest hit of one of its probes, and the
/// probes so met come in an order in which no key precedes the one before
/// it: for the point-source sweep, ascending probe angle.
pub proof fn lemma_sweep_follows_probes(segs: Seq<Segment>, probes: spec_fn(int) -> (Ray, SweepKey), n: int)
    ensures
        ({
            let e = sort_by_key(collect_hits(segs, probes, n));
            &&& sorted_by_key(e)
            &&& e.map_values(|x: (Intersection, SweepKey)| x.0) == sweep_result(segs, probes, n)
            &&& forall|k: int| 0 <= k < e.len() ==> from_probe(segs, probes, n, #[trigger] e[k])
        }),
{
    let c = collect_hits(segs, probes, n);
    let e = sort_by_key(c);
    lemma_sort_by_key_sorted(c);
    lemma_sort_by_key_members(c);
    lemma_collect_hits_from_probes(segs, probes, n);
    assert forall|k: int| 0 <= k < e.len() implies from_probe(segs, probes, n, #[trigger] e[k]) by {
        assert(c.contains(e[k]));
        let j = choose|j: int| 0 <= j < c.len() && c[j] == e[k];
        assert(from_probe(segs, probes, n, c[j]));
    }
}

} // verus!
