use vstd::prelude::*;
use crate::geometry::{Point, Segment, Intersection, COORD_LIMIT, all_in_range};
use crate::sight::{Sight, angular_probes, parallel_probes, sweep_result};

verus! {

/// The first `n` groups of four values of `c` are coordinates in range.
pub open spec fn components_in_range(c: Seq<i64>, n: int) -> bool {
    &&& 4 * n <= c.len()
    &&& forall|i: int| 0 <= i < 4 * n ==> -COORD_LIMIT <= #[trigger] c[i] <= COORD_LIMIT
}

/// The segments whose coordinates `(a.x, a.y, b.x, b.y)` follow each other in `c`.
pub open spec fn segments_of(c: Seq<i64>, n: int) -> Seq<Segment> {
    Seq::new(
        n as nat,
        |i: int| Segment { a: Point { x: c[4 * i], y: c[4 * i + 1] }, b: Point { x: c[4 * i + 2], y: c[4 * i + 3] } },
    )
}

/// Each hit as three values: `x`, `y` and their denominator.
pub open spec fn flatten(hs: Seq<Intersection>) -> Seq<i128> {
    Seq::new(
        3 * hs.len(),
        |i: int|
            if i % 3 == 0 {
                hs[i / 3].x
            } else if i % 3 == 1 {
                hs[i / 3].y
            } else {
                hs[i / 3].den
            },
    )
}

/// A scene and the last boundary computed for it, exchanged with a host as
/// flat arrays of numbers.
pub struct WasmSight {
    sight: Option<Sight>,
    polygon_components: Vec<i128>,
}

impl WasmSight {
    pub closed spec fn current(&self) -> Option<Sight> {
        self.sight
    }

    pub closed spec fn components(&self) -> Seq<i128> {
        self.polygon_components@
    }

    pub open spec fn wf(&self) -> bool {
        self.current() is Some ==> self.current()->Some_0.wf()
    }

    /// No scene yet, and an empty boundary.
    pub fn new() -> (r: WasmSight)
        ensures
            r.wf(),
            r.current() is None,
            r.components() == Seq::<i128>::empty(),
    {
        WasmSight { sight: None, polygon_components: Vec::new() }
    }

    /// Builds the scene from `segment_count` segments given as four
    /// coordinates each. Fails, changing nothing, when the array is too short
    /// or holds a coordinate out of range.
    pub fn initialize_sight(&mut self, segment_components: &Vec<i64>, segment_count: usize) -> (ok: bool)
        requires
            old(self).wf(),
        ensures
            final(self).wf(),
            ok == components_in_range(segment_components@, segment_count as int),
            ok ==> final(self).current() is Some && final(self).current()->Some_0.segs() == segments_of(
                segment_components@,
                segment_count as int,
            ),
            !ok ==> final(self).current() == old(self).current(),
            final(self).components() == old(self).components(),
    {
        if segment_count > segment_components.len() / 4 {
            return false;
        }
        let n = segment_count * 4;
        let mut i: usize = 0;
        while i < n
            invariant
                self.wf(),
                self.current() == old(self).current(),
                self.components() == old(self).components(),
                n == 4 * segment_count,
                n <= segment_components@.len(),
                i <= n,
                forall|j: int| 0 <= j < i ==> -COORD_LIMIT <= #[trigger] segment_components@[j] <= COORD_LIMIT,
            decreases n - i,
        {
            let v = segment_components[i];
            if v < -COORD_LIMIT || v > COORD_LIMIT {
                return false;
            }
            i += 1;
        }
        let mut segments: Vec<Segment> = Vec::new();
        let mut k: usize = 0;
        while k < segment_count
            invariant
                self.components() == old(self).components(),
                n == 4 * segment_count,
                n <= segment_components@.len(),
                components_in_range(segment_components@, segment_count as int),
                k <= segment_count,
                segments@ == segments_of(segment_components@, k as int),
                all_in_range(segments@),
            decreases segment_count - k,
        {
            let b = 4 * k;
            let s = Segment {
                a: Point { x: segment_components[b], y: segment_components[b + 1] },
                b: Point { x: segment_components[b + 2], y: segment_components[b + 3] },
            };
            assert(s.in_range());
            segments.push(s);
            k += 1;
            assert(segments@ =~= segments_of(segment_components@, k as int));
        }
        self.sight = Some(Sight::new(segments, Vec::new()));
        assert(segments@ + Seq::<Segment>::empty() =~= segments@);
        true
    }

    /// Computes what the point `(source_x, source_y)` sees. Fails, changing
    /// nothing, when there is no scene yet or the point is out of range.
    pub fn generate_polygon(&mut self, source_x: i64, source_y: i64) -> (ok: bool)
        requires
            old(self).wf(),
        ensures
            final(self).wf(),
            final(self).current() == old(self).current(),
            ok == (old(self).current() is Some && (Point { x: source_x, y: source_y }).in_range()),
            ok ==> final(self).components() == flatten(
                {
                    let s = old(self).current()->Some_0;
                    sweep_result(
                        s.segs(),
                        angular_probes(s.vertices(), Point { x: source_x, y: source_y }),
                        2 * s.vertices().len() as int,
                    )
                },
            ),
            !ok ==> final(self).components() == old(self).components(),
    {
        let source = Point { x: source_x, y: source_y };
        if source_x < -COORD_LIMIT || source_x > COORD_LIMIT || source_y < -COORD_LIMIT || source_y
            > COORD_LIMIT {
            return false;
        }
        match &self.sight {
            Some(sight) => {
                let polygon = sight.sight_polygon(source);
                self.polygon_components = flatten_hits(&polygon);
                true
            },
            None => false,
        }
    }

    /// Computes what rays along `(dir_x, dir_y)` reach. Fails, changing
    /// nothing, when there is no scene yet or the direction is out of range.
    pub fn generate_isometric_polygon(&mut self, dir_x: i64, dir_y: i64) -> (ok: bool)
        requires
            old(self).wf(),
        ensures
            final(self).wf(),
            final(self).current() == old(self).current(),
            ok == (old(self).current() is Some && (Point { x: dir_x, y: dir_y }).in_range()),
            ok ==> final(self).components() == flatten(
                {
                    let s = old(self).current()->Some_0;
                    sweep_result(
                        s.segs(),
                        parallel_probes(s.vertices(), Point { x: dir_x, y: dir_y }),
                        2 * s.vertices().len() as int,
                    )
                },
            ),
            !ok ==> final(self).components() == old(self).components(),
    {
        let dir = Point { x: dir_x, y: dir_y };
        if dir_x < -COORD_LIMIT || dir_x > COORD_LIMIT || dir_y < -COORD_LIMIT || dir_y > COORD_LIMIT {
            return false;
        }
        match &self.sight {
            Some(sight) => {
                let polygon = sight.isometric_sight(dir);
                self.polygon_components = flatten_hits(&polygon);
                true
            },
            None => false,
        }
    }

    /// The last boundary computed, three values per point.
    pub fn polygon(&self) -> (r: &Vec<i128>)
        ensures
            r@ == self.components(),
    {
        &self.polygon_components
    }

    /// The number of points in the last boundary computed.
    pub fn polygon_size(&self) -> (r: usize)
        ensures
            r == self.components().len() / 3,
    {
        self.polygon_components.len() / 3
    }
}

fn flatten_hits(hs: &Vec<Intersection>) -> (r: Vec<i128>)
    ensures
        r@ == flatten(hs@),
{
    let mut out: Vec<i128> = Vec::new();
    let mut i: usize = 0;
    while i < hs.len()
        invariant
            i <= hs@.len(),
            out@ == flatten(hs@.take(i as int)),
        decreases hs.len() - i,
    {
        let h = hs[i];
        out.push(h.x);
        out.push(h.y);
        out.push(h.den);
        i += 1;
        assert(out@ =~= flatten(hs@.take(i as int)));
    }
    assert(hs@.take(hs@.len() as int) =~= hs@);
    out
}

} // verus!
