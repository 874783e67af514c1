//! The balanced spatial partition and its builder.
//!
//! `Partition` is an immutable binary tree over a snapshot of points. Each
//! node splits on one axis at the coordinate of its point: everything in the
//! left subtree lies at or below that value along the axis, everything in
//! the right subtree at or above it. Construction sorts the current range
//! along the splitting axis (a full stable sort, chosen for simplicity over
//! a partial selection since builds are far rarer than queries) and recurses
//! on both halves around the median, cycling the axis with depth.

use vstd::prelude::*;
use vstd::seq_lib::lemma_multiset_commutative;
use crate::point_set::{Point, valid_coords};

verus! {

broadcast use vstd::seq_lib::group_to_multiset_ensures, vstd::multiset::group_multiset_axioms;

/// The spatial partition: empty, or a point with a splitting axis and two
/// subtrees.
pub enum Partition {
    Empty,
    Node { point: Point, axis: usize, left: Box<Partition>, right: Box<Partition> },
}

impl Partition {
    /// All points of the partition, in canonical traversal order: node
    /// first, then the left subtree, then the right subtree.
    pub open spec fn points(self) -> Seq<Point>
        decreases self,
    {
        match self {
            Partition::Empty => Seq::empty(),
            Partition::Node { point, axis, left, right } => seq![point] + left.points()
                + right.points(),
        }
    }

    /// The partition invariant: axes in range, coordinates in range, and at
    /// every node the left subtree lies at or below the split value along
    /// the node's axis while the right subtree lies at or above it.
    pub open spec fn wf(self) -> bool
        decreases self,
    {
        match self {
            Partition::Empty => true,
            Partition::Node { point, axis, left, right } => {
                &&& axis < 3
                &&& point.coord.valid()
                &&& forall|i: int|
                    0 <= i < left.points().len() ==> (#[trigger] left.points()[i]).coord.spec_axis(
                        axis as int,
                    ) <= point.coord.spec_axis(axis as int)
                &&& forall|i: int|
                    0 <= i < right.points().len() ==> (#[trigger] right.points()[i]).coord.spec_axis(
                        axis as int,
                    ) >= point.coord.spec_axis(axis as int)
                &&& left.wf()
                &&& right.wf()
            },
        }
    }

    /// Every coordinate in a well-formed partition is in range.
    pub proof fn lemma_wf_valid(self)
        requires
            self.wf(),
        ensures
            valid_coords(self.points()),
        decreases self,
    {
        match self {
            Partition::Empty => {},
            Partition::Node { point, axis, left, right } => {
                left.lemma_wf_valid();
                right.lemma_wf_valid();
                let ps = self.points();
                let lp = left.points();
                let rp = right.points();
                assert forall|i: int| 0 <= i < ps.len() implies (#[trigger] ps[i]).coord.valid() by {
                    if i == 0 {
                        assert(ps[i] == point);
                    } else if i <= lp.len() {
                        assert(ps[i] == lp[i - 1]);
                    } else {
                        assert(ps[i] == rp[i - 1 - lp.len()]);
                    }
                }
            },
        }
    }
}

/// Orders two points along axis `ax`.
pub open spec fn axis_le(a: Point, b: Point, ax: int) -> bool {
    a.coord.spec_axis(ax) <= b.coord.spec_axis(ax)
}

/// `s` is sorted along axis `ax`.
pub open spec fn sorted_axis(s: Seq<Point>, ax: int) -> bool {
    forall|i: int, j: int| 0 <= i <= j < s.len() ==> axis_le(#[trigger] s[i], #[trigger] s[j], ax)
}

/// `p` inserted into `s` after every element that is at or below it along
/// axis `ax`. Inserting after equals keeps the original order of ties, so
/// the sort built from this insertion is stable.
pub open spec fn spec_insert_sorted(s: Seq<Point>, p: Point, ax: int) -> Seq<Point>
    decreases s.len(),
{
    if s.len() == 0 {
        seq![p]
    } else if axis_le(s[0], p, ax) {
        seq![s[0]] + spec_insert_sorted(s.drop_first(), p, ax)
    } else {
        seq![p] + s
    }
}

/// Stable insertion sort of `s` along axis `ax`.
pub open spec fn spec_sort_axis(s: Seq<Point>, ax: int) -> Seq<Point>
    decreases s.len(),
{
    if s.len() == 0 {
        Seq::empty()
    } else {
        spec_insert_sorted(spec_sort_axis(s.drop_last(), ax), s.last(), ax)
    }
}

/// An element of a sequence whose multiset is `base`'s plus `p` is either
/// `p` or an element of `base`.
proof fn lemma_mem_of_insert(t: Seq<Point>, base: Seq<Point>, p: Point, x: Point)
    requires
        t.to_multiset() == base.to_multiset().insert(p),
        t.contains(x),
    ensures
        x == p || base.contains(x),
{
    assert(t.to_multiset().count(x) > 0);
    if x != p {
        assert(base.to_multiset().count(x) > 0);
    }
}

/// Shape, contents, and order of `spec_insert_sorted`.
proof fn lemma_insert_sorted_props(s: Seq<Point>, p: Point, ax: int)
    ensures
        spec_insert_sorted(s, p, ax).len() == s.len() + 1,
        spec_insert_sorted(s, p, ax).to_multiset() == s.to_multiset().insert(p),
        sorted_axis(s, ax) ==> sorted_axis(spec_insert_sorted(s, p, ax), ax),
    decreases s.len(),
{
    let r = spec_insert_sorted(s, p, ax);
    if s.len() == 0 {
        assert(s =~= Seq::<Point>::empty());
        assert(r =~= s.push(p));
        assert(r.to_multiset() =~= s.to_multiset().insert(p));
        assert(sorted_axis(r, ax));
    } else if axis_le(s[0], p, ax) {
        let d = s.drop_first();
        lemma_insert_sorted_props(d, p, ax);
        let rec = spec_insert_sorted(d, p, ax);
        assert(r == seq![s[0]] + rec);
        assert(s =~= seq![s[0]] + d);
        lemma_multiset_commutative(seq![s[0]], rec);
        lemma_multiset_commutative(seq![s[0]], d);
        assert(seq![s[0]].to_multiset() =~= Seq::<Point>::empty().push(s[0]).to_multiset());
        assert(r.to_multiset() =~= s.to_multiset().insert(p));
        if sorted_axis(s, ax) {
            assert(forall|i: int| 0 <= i < d.len() ==> d[i] == s[i + 1]);
            assert(sorted_axis(d, ax)) by {
                assert forall|i: int, j: int| 0 <= i <= j < d.len() implies axis_le(
                    #[trigger] d[i],
                    #[trigger] d[j],
                    ax,
                ) by {
                    assert(axis_le(s[i + 1], s[j + 1], ax));
                }
            }
            assert forall|i: int, j: int| 0 <= i <= j < r.len() implies axis_le(
                #[trigger] r[i],
                #[trigger] r[j],
                ax,
            ) by {
                if i == 0 && j > 0 {
                    assert(r[j] == rec[j - 1]);
                    assert(rec.contains(rec[j - 1]));
                    lemma_mem_of_insert(rec, d, p, rec[j - 1]);
                    if rec[j - 1] == p {
                        assert(axis_le(s[0], p, ax));
                    } else {
                        let k = choose|k: int| 0 <= k < d.len() && d[k] == rec[j - 1];
                        assert(d[k] == s[k + 1]);
                        assert(axis_le(s[0], s[k + 1], ax));
                    }
                } else if i > 0 && j > 0 {
                    assert(r[i] == rec[i - 1]);
                    assert(r[j] == rec[j - 1]);
                    assert(axis_le(rec[i - 1], rec[j - 1], ax));
                }
            }
        }
    } else {
        assert(r == seq![p] + s);
        lemma_multiset_commutative(seq![p], s);
        assert(seq![p].to_multiset() =~= Seq::<Point>::empty().push(p).to_multiset());
        assert(r.to_multiset() =~= s.to_multiset().insert(p));
        if sorted_axis(s, ax) {
            assert forall|i: int, j: int| 0 <= i <= j < r.len() implies axis_le(
                #[trigger] r[i],
                #[trigger] r[j],
                ax,
            ) by {
                if i == 0 && j > 0 {
                    assert(r[j] == s[j - 1]);
                    assert(axis_le(s[0], s[j - 1], ax) || j == 1);
                    assert(!axis_le(s[0], p, ax));
                } else if i > 0 {
                    assert(r[i] == s[i - 1]);
                    assert(r[j] == s[j - 1]);
                }
            }
        }
    }
}

/// The sort keeps length and contents and delivers order along the axis.
pub proof fn lemma_sort_axis_props(s: Seq<Point>, ax: int)
    ensures
        spec_sort_axis(s, ax).len() == s.len(),
        spec_sort_axis(s, ax).to_multiset() == s.to_multiset(),
        sorted_axis(spec_sort_axis(s, ax), ax),
    decreases s.len(),
{
    if s.len() == 0 {
        assert(spec_sort_axis(s, ax) =~= s);
    } else {
        let d = s.drop_last();
        lemma_sort_axis_props(d, ax);
        lemma_insert_sorted_props(spec_sort_axis(d, ax), s.last(), ax);
        assert(s =~= d.push(s.last()));
        assert(s.to_multiset() =~= d.to_multiset().insert(s.last()));
    }
}

/// Sequences with equal contents have in-range coordinates together.
pub proof fn lemma_valid_transfer(a: Seq<Point>, b: Seq<Point>)
    requires
        a.to_multiset() == b.to_multiset(),
        valid_coords(a),
    ensures
        valid_coords(b),
{
    assert forall|i: int| 0 <= i < b.len() implies (#[trigger] b[i]).coord.valid() by {
        assert(b.contains(b[i]));
        assert(b.to_multiset().count(b[i]) > 0);
        assert(a.contains(b[i]));
        let k = choose|k: int| 0 <= k < a.len() && a[k] == b[i];
        assert(a[k].coord.valid());
    }
}

/// The axis that follows `ax` when descending one level in a tree of
/// dimensionality `dims`.
pub open spec fn next_axis(ax: int, dims: int) -> int {
    if ax + 1 < dims {
        ax + 1
    } else {
        0
    }
}

/// The points of the partition built from `s`, in canonical traversal
/// order: median of the axis-sorted range first, then the tree of the lower
/// half, then the tree of the upper half.
pub open spec fn spec_build(s: Seq<Point>, ax: int, dims: int) -> Seq<Point>
    decreases s.len(),
    via spec_build_decreases
{
    if s.len() == 0 {
        Seq::empty()
    } else {
        let sorted = spec_sort_axis(s, ax);
        let m = s.len() as int / 2;
        let na = next_axis(ax, dims);
        seq![sorted[m]] + spec_build(sorted.subrange(0, m), na, dims) + spec_build(
            sorted.subrange(m + 1, s.len() as int),
            na,
            dims,
        )
    }
}

#[via_fn]
proof fn spec_build_decreases(s: Seq<Point>, ax: int, dims: int) {
    if s.len() > 0 {
        lemma_sort_axis_props(s, ax);
    }
}

/// Building keeps exactly the points it was given.
pub proof fn lemma_spec_build_multiset(s: Seq<Point>, ax: int, dims: int)
    ensures
        spec_build(s, ax, dims).to_multiset() == s.to_multiset(),
        spec_build(s, ax, dims).len() == s.len(),
    decreases s.len(),
{
    if s.len() == 0 {
    } else {
        let sorted = spec_sort_axis(s, ax);
        lemma_sort_axis_props(s, ax);
        let m = s.len() as int / 2;
        let na = next_axis(ax, dims);
        let lo = sorted.subrange(0, m);
        let hi = sorted.subrange(m + 1, s.len() as int);
        lemma_spec_build_multiset(lo, na, dims);
        lemma_spec_build_multiset(hi, na, dims);
        let r = spec_build(s, ax, dims);
        lemma_multiset_commutative(seq![sorted[m]] + spec_build(lo, na, dims), spec_build(hi, na, dims));
        lemma_multiset_commutative(seq![sorted[m]], spec_build(lo, na, dims));
        assert(sorted =~= lo + (seq![sorted[m]] + hi));
        lemma_multiset_commutative(lo, seq![sorted[m]] + hi);
        lemma_multiset_commutative(seq![sorted[m]], hi);
        assert(seq![sorted[m]].to_multiset() =~= Seq::<Point>::empty().push(
            sorted[m],
        ).to_multiset());
        assert(r.to_multiset() =~= s.to_multiset());
    }
}

/// A sequence's membership carries over to the partition built from it.
pub proof fn lemma_build_contains(s: Seq<Point>, ax: int, dims: int, x: Point)
    ensures
        spec_build(s, ax, dims).contains(x) <==> s.contains(x),
{
    lemma_spec_build_multiset(s, ax, dims);
    if spec_build(s, ax, dims).contains(x) {
        assert(spec_build(s, ax, dims).to_multiset().count(x) > 0);
    }
    if s.contains(x) {
        assert(s.to_multiset().count(x) > 0);
    }
}

/// Stable insertion sort of `v` along axis `ax`, matching `spec_sort_axis`.
fn sort_by_axis(v: Vec<Point>, ax: usize) -> (r: Vec<Point>)
    requires
        ax < 3,
    ensures
        r@ == spec_sort_axis(v@, ax as int),
{
    let n = v.len();
    let mut out: Vec<Point> = Vec::new();
    proof {
        assert(v@.take(0) =~= Seq::<Point>::empty());
    }
    let mut i: usize = 0;
    while i < n
        invariant
            ax < 3,
            i <= n,
            n == v@.len(),
            out@ == spec_sort_axis(v@.take(i as int), ax as int),
        decreases n - i,
    {
        let p = v[i];
        proof {
            lemma_sort_axis_props(v@.take(i as int), ax as int);
        }
        let m = out.len();
        let key = p.coord.axis_val(ax);
        let mut j: usize = 0;
        while j < m && out[j].coord.axis_val(ax) <= key
            invariant
                ax < 3,
                j <= m,
                m == out@.len(),
                key as int == p.coord.spec_axis(ax as int),
                forall|k: int| 0 <= k < j ==> axis_le(#[trigger] out@[k], p, ax as int),
            decreases m - j,
        {
            j += 1;
        }
        proof {
            lemma_insert_sorted_at(out@, p, ax as int, j as int);
        }
        out.insert(j, p);
        proof {
            let t = v@.take(i + 1);
            assert(t.drop_last() =~= v@.take(i as int));
            assert(t.last() == v@[i as int]);
            assert(out@ == spec_sort_axis(t, ax as int));
        }
        i += 1;
    }
    proof {
        assert(v@.take(n as int) =~= v@);
    }
    out
}

/// Inserting at the boundary between the elements at or below `p` and the
/// rest is exactly `spec_insert_sorted`.
proof fn lemma_insert_sorted_at(s: Seq<Point>, p: Point, ax: int, j: int)
    requires
        0 <= j <= s.len(),
        forall|k: int| 0 <= k < j ==> axis_le(#[trigger] s[k], p, ax),
        j == s.len() || !axis_le(s[j], p, ax),
    ensures
        spec_insert_sorted(s, p, ax) == s.insert(j, p),
    decreases s.len(),
{
    if s.len() == 0 {
        assert(spec_insert_sorted(s, p, ax) =~= s.insert(0, p));
    } else if j == 0 {
        assert(!axis_le(s[0], p, ax));
        assert(spec_insert_sorted(s, p, ax) =~= s.insert(0, p));
    } else {
        assert(axis_le(s[0], p, ax));
        let d = s.drop_first();
        assert(forall|k: int| 0 <= k < j - 1 ==> d[k] == s[k + 1]);
        assert(j - 1 == d.len() || !axis_le(d[j - 1], p, ax));
        lemma_insert_sorted_at(d, p, ax, j - 1);
        assert(spec_insert_sorted(s, p, ax) == seq![s[0]] + d.insert(j - 1, p));
        assert(seq![s[0]] + d.insert(j - 1, p) =~= s.insert(j, p));
    }
}

/// Build the partition of `v`, splitting first along axis `ax`.
fn build_rec(v: Vec<Point>, ax: usize, dims: usize) -> (t: Partition)
    requires
        dims == 2 || dims == 3,
        ax < dims,
        valid_coords(v@),
    ensures
        t.wf(),
        t.points() == spec_build(v@, ax as int, dims as int),
    decreases v@.len(),
{
    let ghost v0 = v@;
    if v.len() == 0 {
        let t = Partition::Empty;
        proof {
            assert(t.points() =~= spec_build(v0, ax as int, dims as int));
        }
        return t;
    }
    let sorted = sort_by_axis(v, ax);
    proof {
        lemma_sort_axis_props(v0, ax as int);
        lemma_valid_transfer(v0, sorted@);
    }
    let n = sorted.len();
    let m = n / 2;
    let node = sorted[m];
    let mut lo: Vec<Point> = Vec::new();
    let mut i: usize = 0;
    while i < m
        invariant
            i <= m,
            m < n,
            n == sorted@.len(),
            lo@ == sorted@.subrange(0, i as int),
        decreases m - i,
    {
        lo.push(sorted[i]);
        proof {
            assert(lo@ =~= sorted@.subrange(0, i + 1));
        }
        i += 1;
    }
    let mut hi: Vec<Point> = Vec::new();
    let mut k: usize = m + 1;
    while k < n
        invariant
            m + 1 <= k <= n,
            n == sorted@.len(),
            hi@ == sorted@.subrange(m + 1, k as int),
        decreases n - k,
    {
        hi.push(sorted[k]);
        proof {
            assert(hi@ =~= sorted@.subrange(m + 1, k + 1));
        }
        k += 1;
    }
    proof {
        assert(lo@ =~= sorted@.subrange(0, m as int));
        assert(hi@ =~= sorted@.subrange(m + 1, n as int));
        assert(valid_coords(lo@)) by {
            assert(forall|q: int| 0 <= q < lo@.len() ==> lo@[q] == sorted@[q]);
        }
        assert(valid_coords(hi@)) by {
            assert(forall|q: int| 0 <= q < hi@.len() ==> hi@[q] == sorted@[q + m + 1]);
        }
    }
    let na = if ax + 1 < dims {
        ax + 1
    } else {
        0
    };
    let lt = build_rec(lo, na, dims);
    let rt = build_rec(hi, na, dims);
    let ghost lp = lt.points();
    let ghost rp = rt.points();
    proof {
        lemma_spec_build_multiset(lo@, na as int, dims as int);
        lemma_spec_build_multiset(hi@, na as int, dims as int);
        assert(sorted_axis(sorted@, ax as int));
        assert forall|q: int| 0 <= q < lp.len() implies (#[trigger] lp[q]).coord.spec_axis(
            ax as int,
        ) <= node.coord.spec_axis(ax as int) by {
            assert(lp.contains(lp[q]));
            assert(lp.to_multiset().count(lp[q]) > 0);
            assert(lo@.contains(lp[q]));
            let w = choose|w: int| 0 <= w < lo@.len() && lo@[w] == lp[q];
            assert(lo@[w] == sorted@[w]);
            assert(axis_le(sorted@[w], sorted@[m as int], ax as int));
        }
        assert forall|q: int| 0 <= q < rp.len() implies (#[trigger] rp[q]).coord.spec_axis(
            ax as int,
        ) >= node.coord.spec_axis(ax as int) by {
            assert(rp.contains(rp[q]));
            assert(rp.to_multiset().count(rp[q]) > 0);
            assert(hi@.contains(rp[q]));
            let w = choose|w: int| 0 <= w < hi@.len() && hi@[w] == rp[q];
            assert(hi@[w] == sorted@[w + m + 1]);
            assert(axis_le(sorted@[m as int], sorted@[w + m + 1], ax as int));
        }
    }
    let t = Partition::Node { point: node, axis: ax, left: Box::new(lt), right: Box::new(rt) };
    proof {
        assert(t.points() == seq![node] + lp + rp);
        assert(next_axis(ax as int, dims as int) == na as int);
        assert(t.points() == spec_build(v0, ax as int, dims as int));
    }
    t
}

/// Build the balanced partition of a snapshot. An empty snapshot yields the
/// empty partition.
pub fn build(points: Vec<Point>, dims: usize) -> (t: Partition)
    requires
        dims == 2 || dims == 3,
        valid_coords(points@),
    ensures
        t.wf(),
        t.points() == spec_build(points@, 0, dims as int),
    {
    build_rec(points, 0, dims)
}

} // verus!
