use vstd::prelude::*;
use crate::geometry::Intersection;

verus! {

/// Position of a probe along a sweep: first `group`, then the fraction
/// `num / den`.
#[derive(Clone, Copy, Debug, PartialEq, Eq, Structural)]
pub struct SweepKey {
    pub group: i64,
    pub num: i64,
    pub den: i64,
}

impl SweepKey {
    pub open spec fn in_range(self) -> bool {
        &&& -2 <= self.group <= 4
        &&& -0x1000_0000_0000_0000 <= self.num <= 0x1000_0000_0000_0000
        &&& 1 <= self.den <= 0x200_0000_0000
    }
}

/// `a` comes strictly before `b` in a sweep.
pub open spec fn key_lt(a: SweepKey, b: SweepKey) -> bool {
    ||| a.group < b.group
    ||| a.group == b.group && a.num * b.den < b.num * a.den
}

pub fn key_less(a: &SweepKey, b: &SweepKey) -> (r: bool)
    requires
        a.in_range(),
        b.in_range(),
    ensures
        r == key_lt(*a, *b),
{
    let an = a.num as i128;
    let bn = b.num as i128;
    let ad = a.den as i128;
    let bd = b.den as i128;
    assert(-0x100_0000_0000_0000_0000_0000_0000 <= an * bd <= 0x100_0000_0000_0000_0000_0000_0000)
        by (nonlinear_arith)
        requires -0x1000_0000_0000_0000 <= an <= 0x1000_0000_0000_0000, 1 <= bd <= 0x200_0000_0000;
    assert(-0x100_0000_0000_0000_0000_0000_0000 <= bn * ad <= 0x100_0000_0000_0000_0000_0000_0000)
        by (nonlinear_arith)
        requires -0x1000_0000_0000_0000 <= bn <= 0x1000_0000_0000_0000, 1 <= ad <= 0x200_0000_0000;
    let lhs = an * bd;
    let rhs = bn * ad;
    a.group < b.group || (a.group == b.group && lhs < rhs)
}

pub open spec fn keys_in_range(s: Seq<(Intersection, SweepKey)>) -> bool {
    forall|i: int| 0 <= i < s.len() ==> (#[trigger] s[i]).1.in_range()
}

/// `e` placed into `s` after every entry whose key does not come after its own.
pub open spec fn insert_by_key(s: Seq<(Intersection, SweepKey)>, e: (Intersection, SweepKey)) -> Seq<
    (Intersection, SweepKey),
>
    decreases s.len(),
{
    if s.len() == 0 || !key_lt(e.1, s.last().1) {
        s.push(e)
    } else {
        insert_by_key(s.drop_last(), e).push(s.last())
    }
}

/// The stable ordering of `s` by key: entries with equal keys keep their order.
pub open spec fn sort_by_key(s: Seq<(Intersection, SweepKey)>) -> Seq<(Intersection, SweepKey)>
    decreases s.len(),
{
    if s.len() == 0 {
        Seq::empty()
    } else {
        insert_by_key(sort_by_key(s.drop_last()), s.last())
    }
}

/// No entry's key comes before that of the entry ahead of it.
pub open spec fn sorted_by_key(s: Seq<(Intersection, SweepKey)>) -> bool {
    forall|i: int| 0 <= i < s.len() - 1 ==> !key_lt(#[trigger] s[i + 1].1, s[i].1)
}

proof fn lemma_insert_at(s: Seq<(Intersection, SweepKey)>, e: (Intersection, SweepKey), p: int)
    requires
        0 <= p <= s.len(),
        forall|j: int| p <= j < s.len() ==> key_lt(e.1, #[trigger] s[j].1),
        p == 0 || !key_lt(e.1, s[p - 1].1),
    ensures
        insert_by_key(s, e) == s.insert(p, e),
    decreases s.len(),
{
    if p == s.len() {
        assert(s.push(e) =~= s.insert(p, e));
    } else {
        assert(key_lt(e.1, s.last().1));
        lemma_insert_at(s.drop_last(), e, p);
        assert(s.drop_last().insert(p, e).push(s.last()) =~= s.insert(p, e));
    }
}

proof fn lemma_insert_keeps_order(s: Seq<(Intersection, SweepKey)>, e: (Intersection, SweepKey))
    requires
        sorted_by_key(s),
    ensures
        sorted_by_key(insert_by_key(s, e)),
        insert_by_key(s, e).len() == s.len() + 1,
        insert_by_key(s, e).last() == e || (s.len() > 0 && insert_by_key(s, e).last() == s.last()),
    decreases s.len(),
{
    if s.len() == 0 || !key_lt(e.1, s.last().1) {
        let r = s.push(e);
        assert forall|i: int| 0 <= i < r.len() - 1 implies !key_lt(#[trigger] r[i + 1].1, r[i].1) by {
            if i < s.len() - 1 {
                assert(r[i + 1] == s[i + 1]);
            }
        }
    } else {
        let d = s.drop_last();
        assert forall|i: int| 0 <= i < d.len() - 1 implies !key_lt(#[trigger] d[i + 1].1, d[i].1) by {
            assert(d[i + 1] == s[i + 1]);
        }
        lemma_insert_keeps_order(d, e);
        let q = insert_by_key(d, e);
        let r = q.push(s.last());
        if q.last() != e {
            assert(q.last() == s[s.len() - 2]);
            assert(!key_lt(s[s.len() - 2 + 1].1, s[s.len() - 2].1));
        }
        assert forall|i: int| 0 <= i < r.len() - 1 implies !key_lt(#[trigger] r[i + 1].1, r[i].1) by {
            if i < q.len() - 1 {
                assert(r[i + 1] == q[i + 1]);
            }
        }
    }
}

/// The stable ordering by key is ordered by key.
pub proof fn lemma_sort_by_key_sorted(s: Seq<(Intersection, SweepKey)>)
    ensures
        sorted_by_key(sort_by_key(s)),
        sort_by_key(s).len() == s.len(),
    decreases s.len(),
{
    if s.len() > 0 {
        lemma_sort_by_key_sorted(s.drop_last());
        lemma_insert_keeps_order(sort_by_key(s.drop_last()), s.last());
    }
}

proof fn lemma_insert_members(s: Seq<(Intersection, SweepKey)>, e: (Intersection, SweepKey))
    ensures
        forall|i: int| 0 <= i < insert_by_key(s, e).len() ==> (#[trigger] insert_by_key(s, e)[i] == e
            || s.contains(insert_by_key(s, e)[i])),
        insert_by_key(s, e).len() == s.len() + 1,
    decreases s.len(),
{
    if s.len() == 0 || !key_lt(e.1, s.last().1) {
        assert forall|i: int| 0 <= i < s.push(e).len() implies (#[trigger] s.push(e)[i] == e
            || s.contains(s.push(e)[i])) by {
            if i < s.len() {
                assert(s.push(e)[i] == s[i]);
            }
        }
    } else {
        let d = s.drop_last();
        lemma_insert_members(d, e);
        let q = insert_by_key(d, e);
        assert forall|i: int| 0 <= i < q.push(s.last()).len() implies (#[trigger] q.push(s.last())[i]
            == e || s.contains(q.push(s.last())[i])) by {
            if i < q.len() {
                assert(q.push(s.last())[i] == q[i]);
                if q[i] != e {
                    let j = choose|j: int| 0 <= j < d.len() && d[j] == q[i];
                    assert(s[j] == d[j]);
                }
            } else {
                assert(s[s.len() - 1] == s.last());
            }
        }
    }
}

/// Every entry of the stable ordering by key is an entry of `s`.
pub proof fn lemma_sort_by_key_members(s: Seq<(Intersection, SweepKey)>)
    ensures
        forall|i: int| 0 <= i < sort_by_key(s).len() ==> s.contains(#[trigger] sort_by_key(s)[i]),
        sort_by_key(s).len() == s.len(),
    decreases s.len(),
{
    if s.len() > 0 {
        let d = s.drop_last();
        lemma_sort_by_key_members(d);
        lemma_insert_members(sort_by_key(d), s.last());
        let q = sort_by_key(d);
        assert forall|i: int| 0 <= i < sort_by_key(s).len() implies s.contains(
            #[trigger] sort_by_key(s)[i]) by {
            let x = sort_by_key(s)[i];
            if x == s.last() {
                assert(s[s.len() - 1] == x);
            } else {
                assert(q.contains(x));
                let k = choose|k: int| 0 <= k < q.len() && q[k] == x;
                assert(d.contains(q[k]));
                let j = choose|j: int| 0 <= j < d.len() && d[j] == x;
                assert(s[j] == d[j]);
            }
        }
    }
}

fn insert_sorted(v: &mut Vec<(Intersection, SweepKey)>, e: (Intersection, SweepKey))
    requires
        keys_in_range(old(v)@),
        e.1.in_range(),
    ensures
        final(v)@ == insert_by_key(old(v)@, e),
        keys_in_range(final(v)@),
{
    let mut p: usize = v.len();
    while p > 0 && key_less(&e.1, &v[p - 1].1)
        invariant
            p <= v@.len(),
            keys_in_range(v@),
            e.1.in_range(),
            forall|j: int| p <= j < v@.len() ==> key_lt(e.1, #[trigger] v@[j].1),
        decreases p,
    {
        p -= 1;
    }
    proof {
        lemma_insert_at(v@, e, p as int);
    }
    v.insert(p, e);
    assert forall|i: int| 0 <= i < v@.len() implies (#[trigger] v@[i]).1.in_range() by {
        if i > p {
            assert(v@[i] == old(v)@[i - 1]);
        }
    }
}

/// The hits of `entries` in the stable order of their keys.
pub fn assemble(entries: &Vec<(Intersection, SweepKey)>) -> (r: Vec<Intersection>)
    requires
        keys_in_range(entries@),
    ensures
        r@ == sort_by_key(entries@).map_values(|e: (Intersection, SweepKey)| e.0),
{
    let mut sorted: Vec<(Intersection, SweepKey)> = Vec::new();
    let mut k: usize = 0;
    while k < entries.len()
        invariant
            k <= entries@.len(),
            keys_in_range(entries@),
            keys_in_range(sorted@),
            sorted@ == sort_by_key(entries@.take(k as int)),
        decreases entries.len() - k,
    {
        assert(entries@.take(k as int + 1).drop_last() =~= entries@.take(k as int));
        insert_sorted(&mut sorted, entries[k]);
        k += 1;
    }
    assert(entries@.take(entries@.len() as int) =~= entries@);
    let mut out: Vec<Intersection> = Vec::new();
    let mut j: usize = 0;
    while j < sorted.len()
        invariant
            j <= sorted@.len(),
            out@ =~= sorted@.take(j as int).map_values(|e: (Intersection, SweepKey)| e.0),
        decreases sorted.len() - j,
    {
        out.push(sorted[j].0);
        j += 1;
    }
    assert(sorted@.take(sorted@.len() as int) =~= sorted@);
    out
}

} // verus!
