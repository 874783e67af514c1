//! The spatial index: point set, partition, and reconciliation.
//!
//! `SpatialIndex` owns a `PointSet` and the partition last built from it.
//! `update` is the sole mutation surface: it removes the reported
//! identifiers, re-asserts the coordinate of every still-tracked point
//! (also capturing newly tracked ones), and rebuilds the partition from
//! the new snapshot unconditionally — cadence control belongs to the
//! caller. Queries read the rebuilt partition; between updates they may
//! surface identifiers whose entity has since gone, and callers resolve
//! returned identifiers before use.

use vstd::prelude::*;
use crate::coord::{Coord, RADIUS_LIMIT, dist_sq_spec};
use crate::point_set::{
    Point, PointSet, bumped, contains_id, find_idx, spec_remove, spec_upsert, unique_ids,
    lemma_find_idx,
};
use crate::tree::{Partition, build, lemma_spec_build_multiset, spec_build};
use crate::query::{
    first_min_idx, is_first_min, lemma_nearest_is_first_min, lemma_within_exact, spec_nearest,
    spec_within,
};

verus! {

broadcast use vstd::seq_lib::group_to_multiset_ensures, vstd::multiset::group_multiset_axioms;

/// The point sequence after removing each identifier of `ids` in turn.
pub open spec fn spec_remove_all(s: Seq<Point>, ids: Seq<u64>) -> Seq<Point>
    decreases ids.len(),
{
    if ids.len() == 0 {
        s
    } else {
        spec_remove_all(spec_remove(s, ids[0]), ids.drop_first())
    }
}

/// The point sequence after upserting each change of `cs` in turn; the
/// changed flag is carried but not consulted (a hook for incremental
/// strategies, not needed for correctness).
pub open spec fn spec_upsert_all(s: Seq<Point>, cs: Seq<(Point, bool)>) -> Seq<Point>
    decreases cs.len(),
{
    if cs.len() == 0 {
        s
    } else {
        spec_upsert_all(spec_upsert(s, cs[0].0), cs.drop_first())
    }
}

/// One reconciliation cycle over the point sequence: removals first, then
/// every change re-asserted.
pub open spec fn spec_apply(s: Seq<Point>, cs: Seq<(Point, bool)>, ids: Seq<u64>) -> Seq<Point> {
    spec_upsert_all(spec_remove_all(s, ids), cs)
}

/// Appending one identifier to the removal batch removes it last.
proof fn lemma_remove_all_push(s: Seq<Point>, ids: Seq<u64>, x: u64)
    ensures
        spec_remove_all(s, ids.push(x)) == spec_remove(spec_remove_all(s, ids), x),
    decreases ids.len(),
{
    if ids.len() == 0 {
        assert(ids.push(x).drop_first() =~= Seq::<u64>::empty());
        assert(spec_remove_all(spec_remove(s, x), Seq::<u64>::empty()) == spec_remove(s, x));
    } else {
        assert(ids.push(x)[0] == ids[0]);
        assert(ids.push(x).drop_first() =~= ids.drop_first().push(x));
        lemma_remove_all_push(spec_remove(s, ids[0]), ids.drop_first(), x);
    }
}

/// Appending one change to the batch upserts it last.
proof fn lemma_upsert_all_push(s: Seq<Point>, cs: Seq<(Point, bool)>, c: (Point, bool))
    ensures
        spec_upsert_all(s, cs.push(c)) == spec_upsert(spec_upsert_all(s, cs), c.0),
    decreases cs.len(),
{
    if cs.len() == 0 {
        assert(cs.push(c)[0] == c);
        assert(cs.push(c).drop_first() =~= Seq::<(Point, bool)>::empty());
        assert(spec_upsert_all(spec_upsert(s, c.0), Seq::<(Point, bool)>::empty()) == spec_upsert(
            s,
            c.0,
        ));
    } else {
        assert(cs.push(c)[0] == cs[0]);
        assert(cs.push(c).drop_first() =~= cs.drop_first().push(c));
        lemma_upsert_all_push(spec_upsert(s, cs[0].0), cs.drop_first(), c);
    }
}

/// Removing one identifier from a duplicate-free sequence removes exactly
/// its entry and keeps the rest, ids and coordinates alike.
proof fn lemma_remove_contains(s: Seq<Point>, x: u64)
    requires
        unique_ids(s),
    ensures
        unique_ids(spec_remove(s, x)),
        forall|id: u64|
            #[trigger] contains_id(spec_remove(s, x), id) <==> contains_id(s, id) && id != x,
{
    lemma_find_idx(s, x);
    let r = spec_remove(s, x);
    if contains_id(s, x) {
        let fi = find_idx(s, x);
        assert(forall|k: int|
            0 <= k < r.len() ==> r[k] == (if k < fi {
                s[k]
            } else {
                s[k + 1]
            }));
        assert forall|a: int, b: int| 0 <= a < b < r.len() implies r[a].id != r[b].id by {
            let sa: int = if a < fi {
                a
            } else {
                a + 1
            };
            let sb: int = if b < fi {
                b
            } else {
                b + 1
            };
            assert(r[a] == s[sa] && r[b] == s[sb]);
        }
        assert forall|id: u64| #[trigger] contains_id(r, id) implies contains_id(s, id) && id != x by {
            let k = choose|k: int| 0 <= k < r.len() && r[k].id == id;
            let sk: int = if k < fi {
                k
            } else {
                k + 1
            };
            assert(s[sk].id == id);
            if id == x {
                assert(sk != fi);
                assert(s[fi].id == x);
            }
        }
        assert forall|id: u64| contains_id(s, id) && id != x implies #[trigger] contains_id(
            r,
            id,
        ) by {
            let k = choose|k: int| 0 <= k < s.len() && s[k].id == id;
            assert(k != fi);
            let rk: int = if k < fi {
                k
            } else {
                k - 1
            };
            assert(r[rk].id == id);
        }
    }
}

/// After a removal batch over a duplicate-free sequence, an identifier is
/// present exactly when it was present and not in the batch.
proof fn lemma_remove_all_contains(s: Seq<Point>, ids: Seq<u64>)
    requires
        unique_ids(s),
    ensures
        unique_ids(spec_remove_all(s, ids)),
        forall|id: u64|
            #[trigger] contains_id(spec_remove_all(s, ids), id) <==> contains_id(s, id)
                && !ids.contains(id),
    decreases ids.len(),
{
    if ids.len() == 0 {
        assert(forall|id: u64| !ids.contains(id));
    } else {
        lemma_remove_contains(s, ids[0]);
        lemma_remove_all_contains(spec_remove(s, ids[0]), ids.drop_first());
        assert forall|id: u64| #[trigger]
            contains_id(spec_remove_all(s, ids), id) <==> contains_id(s, id) && !ids.contains(
            id,
        ) by {
            assert(ids.contains(id) <==> (ids[0] == id || ids.drop_first().contains(id))) by {
                if ids.contains(id) {
                    let k = choose|k: int| 0 <= k < ids.len() && ids[k] == id;
                    if k > 0 {
                        assert(ids.drop_first()[k - 1] == id);
                    }
                }
                if ids.drop_first().contains(id) {
                    let k = choose|k: int| 0 <= k < ids.drop_first().len() && ids.drop_first()[k] == id;
                    assert(ids[k + 1] == id);
                }
            }
        }
    }
}

/// Upserting keeps a duplicate-free sequence duplicate-free, and an
/// identifier is present afterwards exactly when it was present or is the
/// upserted one.
proof fn lemma_upsert_contains(s: Seq<Point>, p: Point)
    requires
        unique_ids(s),
    ensures
        unique_ids(spec_upsert(s, p)),
        forall|id: u64|
            #[trigger] contains_id(spec_upsert(s, p), id) <==> contains_id(s, id) || id == p.id,
{
    lemma_find_idx(s, p.id);
    let r = spec_upsert(s, p);
    if contains_id(s, p.id) {
        let fi = find_idx(s, p.id);
        assert(forall|k: int|
            0 <= k < r.len() ==> (#[trigger] r[k]).id == s[k].id);
        assert forall|id: u64| #[trigger]
            contains_id(r, id) <==> contains_id(s, id) || id == p.id by {
            if contains_id(r, id) {
                let k = choose|k: int| 0 <= k < r.len() && r[k].id == id;
                assert(s[k].id == id);
            }
            if contains_id(s, id) {
                let k = choose|k: int| 0 <= k < s.len() && s[k].id == id;
                assert(r[k].id == id);
            }
        }
    } else {
        assert forall|id: u64| #[trigger]
            contains_id(r, id) <==> contains_id(s, id) || id == p.id by {
            if contains_id(r, id) {
                let k = choose|k: int| 0 <= k < r.len() && r[k].id == id;
                if k < s.len() {
                    assert(s[k].id == id);
                } else {
                    assert(r[k] == p);
                }
            }
            if contains_id(s, id) {
                let k = choose|k: int| 0 <= k < s.len() && s[k].id == id;
                assert(r[k].id == id);
            }
            if id == p.id {
                assert(r[s.len() as int].id == id);
            }
        }
        assert forall|a: int, b: int| 0 <= a < b < r.len() implies r[a].id != r[b].id by {
            if b < s.len() {
            } else {
                assert(r[b] == p);
                assert(r[a] == s[a]);
                if s[a].id == p.id {
                    assert(contains_id(s, p.id));
                }
            }
        }
    }
}

/// After a change batch, an identifier is present exactly when it was
/// present or occurs in the batch.
proof fn lemma_upsert_all_contains(s: Seq<Point>, cs: Seq<(Point, bool)>)
    requires
        unique_ids(s),
    ensures
        unique_ids(spec_upsert_all(s, cs)),
        forall|id: u64|
            #[trigger] contains_id(spec_upsert_all(s, cs), id) <==> contains_id(s, id) || exists|
                j: int,
            | 0 <= j < cs.len() && (#[trigger] cs[j]).0.id == id,
    decreases cs.len(),
{
    if cs.len() == 0 {
    } else {
        lemma_upsert_contains(s, cs[0].0);
        lemma_upsert_all_contains(spec_upsert(s, cs[0].0), cs.drop_first());
        let d = cs.drop_first();
        assert(forall|j: int| 0 <= j < d.len() ==> d[j] == cs[j + 1]);
        assert forall|id: u64| #[trigger]
            contains_id(spec_upsert_all(s, cs), id) <==> contains_id(s, id) || exists|j: int|
                0 <= j < cs.len() && (#[trigger] cs[j]).0.id == id by {
            if exists|j: int| 0 <= j < cs.len() && (#[trigger] cs[j]).0.id == id {
                let j = choose|j: int| 0 <= j < cs.len() && (#[trigger] cs[j]).0.id == id;
                if j > 0 {
                    assert(d[j - 1].0.id == id);
                }
            }
            if exists|j: int| 0 <= j < d.len() && (#[trigger] d[j]).0.id == id {
                let j = choose|j: int| 0 <= j < d.len() && (#[trigger] d[j]).0.id == id;
                assert(cs[j + 1].0.id == id);
            }
        }
    }
}

/// The spatial index: the tracked point set plus the partition last built
/// from it, for a fixed dimensionality of 2 or 3.
pub struct SpatialIndex {
    dims: usize,
    points: PointSet,
    tree: Partition,
}

impl SpatialIndex {
    /// The tracked points, in insertion order.
    pub closed spec fn view(self) -> Seq<Point> {
        self.points@
    }

    /// The configured dimensionality.
    pub closed spec fn spec_dims(self) -> int {
        self.dims as int
    }

    /// Current generation of `id`: how many times it has been removed.
    pub closed spec fn spec_generation(self, id: u64) -> u64 {
        self.points.spec_generation(id)
    }

    /// The index invariant: a well-formed point set, and a well-formed
    /// partition that is exactly the one built from the current points.
    pub closed spec fn wf(self) -> bool {
        &&& self.dims == 2 || self.dims == 3
        &&& self.points.wf()
        &&& self.tree.wf()
        &&& self.tree.points() == spec_build(self.points@, 0, self.dims as int)
    }

    /// The invariant is opaque; these facts about it are not.
    pub proof fn lemma_wf_facts(self)
        requires
            self.wf(),
        ensures
            unique_ids(self@),
            self.spec_dims() == 2 || self.spec_dims() == 3,
    {
    }

    /// A fresh, empty index of the given dimensionality.
    pub fn new(dims: usize) -> (r: SpatialIndex)
        requires
            dims == 2 || dims == 3,
        ensures
            r.wf(),
            r@ == Seq::<Point>::empty(),
            r.spec_dims() == dims,
            forall|id: u64| r.spec_generation(id) == 0,
    {
        let points = PointSet::new();
        let snap = points.snapshot();
        let tree = build(snap, dims);
        SpatialIndex { dims, points, tree }
    }

    /// Number of points in the partition.
    pub fn size(&self) -> (n: usize)
        requires
            self.wf(),
        ensures
            n == self@.len(),
            n == spec_build(self@, 0, self.spec_dims()).len(),
    {
        proof {
            lemma_spec_build_multiset(self.points@, 0, self.dims as int);
        }
        self.points.len()
    }

    /// One reconciliation cycle: remove every reported identifier, upsert
    /// every change (re-asserting unchanged points too, so newly tracked
    /// entities are captured), then rebuild the partition from the new
    /// snapshot.
    pub fn update(&mut self, changes: &Vec<(Point, bool)>, removed: &Vec<u64>)
        requires
            old(self).wf(),
            forall|i: int|
                0 <= i < changes@.len() ==> (#[trigger] changes@[i]).0.coord.valid(),
        ensures
            final(self).wf(),
            final(self)@ == spec_apply(old(self)@, changes@, removed@),
            final(self).spec_dims() == old(self).spec_dims(),
            forall|id: u64|
                !removed@.contains(id) ==> final(self).spec_generation(id)
                    == old(self).spec_generation(id),
            forall|id: u64|
                removed@.contains(id) && contains_id(old(self)@, id)
                    ==> final(self).spec_generation(id) == bumped(old(self).spec_generation(id)),
            forall|id: u64|
                removed@.contains(id) && !contains_id(old(self)@, id)
                    ==> final(self).spec_generation(id) == old(self).spec_generation(id),
    {
        let ghost s0 = self.points@;
        let nr = removed.len();
        let mut i: usize = 0;
        proof {
            assert(removed@.take(0) =~= Seq::<u64>::empty());
        }
        while i < nr
            invariant
                old(self).wf(),
                nr == removed@.len(),
                i <= nr,
                s0 == old(self).points@,
                self.dims == old(self).dims,
                self.points.wf(),
                self.points@ == spec_remove_all(s0, removed@.take(i as int)),
                forall|id: u64|
                    !removed@.take(i as int).contains(id) ==> self.points.spec_generation(id)
                        == old(self).points.spec_generation(id),
                forall|id: u64|
                    removed@.take(i as int).contains(id) && contains_id(s0, id)
                        ==> self.points.spec_generation(id) == bumped(
                        old(self).points.spec_generation(id),
                    ),
                forall|id: u64|
                    removed@.take(i as int).contains(id) && !contains_id(s0, id)
                        ==> self.points.spec_generation(id) == old(self).points.spec_generation(
                        id,
                    ),
            decreases nr - i,
        {
            let ghost pre = self.points@;
            let ghost prefix = removed@.take(i as int);
            let id = removed[i];
            proof {
                lemma_remove_all_contains(s0, prefix);
            }
            self.points.remove(id);
            proof {
                assert(removed@.take(i + 1) =~= prefix.push(id));
                lemma_remove_all_push(s0, prefix, id);
                assert(self.points@ == spec_remove_all(s0, removed@.take(i + 1)));
                assert forall|x: u64| !removed@.take(i + 1).contains(x) implies self
                    .points
                    .spec_generation(x) == old(self).points.spec_generation(x) by {
                    assert(!prefix.contains(x)) by {
                        if prefix.contains(x) {
                            let k = choose|k: int| 0 <= k < prefix.len() && prefix[k] == x;
                            assert(prefix.push(id)[k] == x);
                        }
                    }
                    assert(x != id) by {
                        assert(prefix.push(id)[prefix.len() as int] == id);
                    }
                }
                assert forall|x: u64|
                    removed@.take(i + 1).contains(x) && contains_id(s0, x) implies self
                    .points
                    .spec_generation(x) == bumped(old(self).points.spec_generation(x)) by {
                    if x == id {
                        if prefix.contains(x) {
                        } else {
                            assert(contains_id(pre, x) <==> contains_id(s0, x) && !prefix.contains(
                                x,
                            ));
                        }
                    } else {
                        let k = choose|k: int|
                            0 <= k < prefix.push(id).len() && prefix.push(id)[k] == x;
                        assert(prefix[k] == x);
                    }
                }
                assert forall|x: u64|
                    removed@.take(i + 1).contains(x) && !contains_id(s0, x) implies self
                    .points
                    .spec_generation(x) == old(self).points.spec_generation(x) by {
                    if x != id {
                        let k = choose|k: int|
                            0 <= k < prefix.push(id).len() && prefix.push(id)[k] == x;
                        assert(prefix[k] == x);
                    } else {
                        assert(!contains_id(pre, x));
                    }
                }
            }
            i += 1;
        }
        proof {
            assert(removed@.take(nr as int) =~= removed@);
        }
        let ghost s1 = self.points@;
        let ghost ps1 = self.points;
        let nc = changes.len();
        let mut j: usize = 0;
        proof {
            assert(changes@.take(0) =~= Seq::<(Point, bool)>::empty());
        }
        while j < nc
            invariant
                nc == changes@.len(),
                j <= nc,
                forall|k: int|
                    0 <= k < changes@.len() ==> (#[trigger] changes@[k]).0.coord.valid(),
                self.dims == old(self).dims,
                self.points.wf(),
                self.points@ == spec_upsert_all(s1, changes@.take(j as int)),
                forall|id: u64| self.points.spec_generation(id) == ps1.spec_generation(id),
            decreases nc - j,
        {
            let (p, _changed) = changes[j];
            self.points.upsert(p);
            proof {
                assert(changes@.take(j + 1) =~= changes@.take(j as int).push(changes@[j as int]));
                lemma_upsert_all_push(s1, changes@.take(j as int), changes@[j as int]);
            }
            j += 1;
        }
        proof {
            assert(changes@.take(nc as int) =~= changes@);
        }
        let snap = self.points.snapshot();
        let dims = self.dims;
        self.tree = build(snap, dims);
    }

    /// Nearest tracked point to `q`: the distance minimum over the
    /// partition, earliest in canonical order on ties; `None` exactly when
    /// the index is empty.
    pub fn nearest_neighbour(&self, q: Coord) -> (r: Option<Point>)
        requires
            self.wf(),
            q.valid(),
        ensures
            r == spec_nearest(q, spec_build(self@, 0, self.spec_dims())),
    {
        self.tree.nearest(q)
    }

    /// All tracked points within distance `r` of `q`, inclusive.
    pub fn within_distance(&self, q: Coord, r: i64) -> (res: Vec<Point>)
        requires
            self.wf(),
            q.valid(),
            0 <= r <= RADIUS_LIMIT,
        ensures
            res@ == spec_within(q, spec_build(self@, 0, self.spec_dims()), r * r),
    {
        proof {
            assert(r * r <= RADIUS_LIMIT * RADIUS_LIMIT && (r as u64) * (r as u64) == r * r)
                by (nonlinear_arith)
                requires
                    0 <= r <= RADIUS_LIMIT,
            ;
        }
        let r2: u64 = (r as u64) * (r as u64);
        self.tree.within(q, r2)
    }

    /// Current coordinate of `id`, or `None` when the identifier is no
    /// longer tracked: the check callers make before acting on a possibly
    /// stale query result.
    pub fn resolve(&self, id: u64) -> (r: Option<Coord>)
        ensures
            contains_id(self@, id) ==> r == Some(self@[find_idx(self@, id)].coord),
            !contains_id(self@, id) ==> r is None,
    {
        self.points.resolve(id)
    }

    /// Current generation counter of `id` (0 when never removed).
    pub fn generation(&self, id: u64) -> (g: u64)
        ensures
            g == self.spec_generation(id),
    {
        self.points.generation(id)
    }
}

/// The entry of `s` carrying `id`.
pub open spec fn entry_of(s: Seq<Point>, id: u64) -> Point
    recommends
        contains_id(s, id),
{
    s[find_idx(s, id)]
}

/// Two sequences that agree on identifiers up to the length of the first
/// find an identifier of the first at the same place.
proof fn lemma_find_idx_prefix(s: Seq<Point>, r: Seq<Point>, x: u64)
    requires
        s.len() <= r.len(),
        forall|k: int| 0 <= k < s.len() ==> (#[trigger] r[k]).id == s[k].id,
        contains_id(s, x),
    ensures
        find_idx(r, x) == find_idx(s, x),
{
    lemma_find_idx(s, x);
    lemma_find_idx(r, x);
    let fs = find_idx(s, x);
    assert(r[fs].id == x);
    assert(contains_id(r, x));
    let fr = find_idx(r, x);
    if fr < fs {
        assert(s[fr].id == x);
    }
    if fr > fs {
        assert(r[fs].id == x);
    }
}

/// Upserting `p` makes `p` the entry for its identifier.
proof fn lemma_upsert_sets_entry(s: Seq<Point>, p: Point)
    ensures
        contains_id(spec_upsert(s, p), p.id),
        entry_of(spec_upsert(s, p), p.id) == p,
{
    lemma_find_idx(s, p.id);
    let r = spec_upsert(s, p);
    if contains_id(s, p.id) {
        let fi = find_idx(s, p.id);
        assert(r[fi] == p);
        assert(forall|k: int| 0 <= k < s.len() ==> (#[trigger] r[k]).id == s[k].id);
        lemma_find_idx_prefix(s, r, p.id);
    } else {
        assert(r == s.push(p));
        assert(r[s.len() as int] == p);
        assert(contains_id(r, p.id));
        lemma_find_idx(r, p.id);
        let fr = find_idx(r, p.id);
        if fr < s.len() {
            assert(s[fr].id == p.id);
        }
        assert(fr == s.len());
    }
}

/// Upserting `p` leaves the entry of every other identifier where it was.
proof fn lemma_upsert_preserves_entry(s: Seq<Point>, p: Point, x: u64)
    requires
        x != p.id,
        contains_id(s, x),
    ensures
        contains_id(spec_upsert(s, p), x),
        entry_of(spec_upsert(s, p), x) == entry_of(s, x),
{
    lemma_find_idx(s, p.id);
    lemma_find_idx(s, x);
    let r = spec_upsert(s, p);
    let fx = find_idx(s, x);
    if contains_id(s, p.id) {
        let fi = find_idx(s, p.id);
        assert(forall|k: int| 0 <= k < s.len() ==> (#[trigger] r[k]).id == s[k].id);
        lemma_find_idx_prefix(s, r, x);
        assert(fx != fi);
        assert(r[fx] == s[fx]);
    } else {
        assert(r == s.push(p));
        assert(forall|k: int| 0 <= k < s.len() ==> (#[trigger] r[k]).id == s[k].id);
        lemma_find_idx_prefix(s, r, x);
        assert(r[fx] == s[fx]);
    }
}

/// A change batch whose identifiers avoid `x` leaves the entry of `x`
/// where it was.
proof fn lemma_upsert_all_preserves_entry(s: Seq<Point>, cs: Seq<(Point, bool)>, x: u64)
    requires
        contains_id(s, x),
        forall|j: int| 0 <= j < cs.len() ==> (#[trigger] cs[j]).0.id != x,
    ensures
        contains_id(spec_upsert_all(s, cs), x),
        entry_of(spec_upsert_all(s, cs), x) == entry_of(s, x),
    decreases cs.len(),
{
    if cs.len() == 0 {
    } else {
        lemma_upsert_preserves_entry(s, cs[0].0, x);
        assert(forall|j: int| 0 <= j < cs.drop_first().len() ==> cs.drop_first()[j] == cs[j + 1]);
        lemma_upsert_all_preserves_entry(spec_upsert(s, cs[0].0), cs.drop_first(), x);
    }
}

/// After a change batch with pairwise distinct identifiers, each change's
/// point is the entry of its identifier.
proof fn lemma_upsert_all_entries(s: Seq<Point>, cs: Seq<(Point, bool)>)
    requires
        forall|i: int, j: int| 0 <= i < j < cs.len() ==> cs[i].0.id != cs[j].0.id,
    ensures
        forall|j: int|
            0 <= j < cs.len() ==> contains_id(spec_upsert_all(s, cs), (#[trigger] cs[j]).0.id)
                && entry_of(spec_upsert_all(s, cs), cs[j].0.id) == cs[j].0,
    decreases cs.len(),
{
    if cs.len() == 0 {
    } else {
        let s1 = spec_upsert(s, cs[0].0);
        let d = cs.drop_first();
        assert(forall|j: int| 0 <= j < d.len() ==> d[j] == cs[j + 1]);
        lemma_upsert_all_entries(s1, d);
        lemma_upsert_sets_entry(s, cs[0].0);
        assert(forall|j: int| 0 <= j < d.len() ==> (#[trigger] d[j]).0.id != cs[0].0.id);
        lemma_upsert_all_preserves_entry(s1, d, cs[0].0.id);
        assert forall|j: int| 0 <= j < cs.len() implies contains_id(
            spec_upsert_all(s, cs),
            (#[trigger] cs[j]).0.id,
        ) && entry_of(spec_upsert_all(s, cs), cs[j].0.id) == cs[j].0 by {
            if j > 0 {
                assert(d[j - 1] == cs[j]);
            }
        }
    }
}

/// Upserting a point identical to its current entry changes nothing.
proof fn lemma_upsert_noop(s: Seq<Point>, p: Point)
    requires
        contains_id(s, p.id),
        entry_of(s, p.id) == p,
    ensures
        spec_upsert(s, p) == s,
{
    lemma_find_idx(s, p.id);
    assert(spec_upsert(s, p) =~= s);
}

/// A change batch whose points all match their current entries changes
/// nothing.
proof fn lemma_upsert_all_noop(s: Seq<Point>, cs: Seq<(Point, bool)>)
    requires
        forall|j: int|
            0 <= j < cs.len() ==> contains_id(s, (#[trigger] cs[j]).0.id) && entry_of(
                s,
                cs[j].0.id,
            ) == cs[j].0,
    ensures
        spec_upsert_all(s, cs) == s,
    decreases cs.len(),
{
    if cs.len() == 0 {
    } else {
        lemma_upsert_noop(s, cs[0].0);
        assert(forall|j: int| 0 <= j < cs.drop_first().len() ==> cs.drop_first()[j] == cs[j + 1]);
        lemma_upsert_all_noop(s, cs.drop_first());
    }
}

/// A removal batch of identifiers that are all absent changes nothing.
proof fn lemma_remove_all_noop(s: Seq<Point>, ids: Seq<u64>)
    requires
        forall|k: int| 0 <= k < ids.len() ==> !contains_id(s, #[trigger] ids[k]),
    ensures
        spec_remove_all(s, ids) == s,
    decreases ids.len(),
{
    if ids.len() == 0 {
    } else {
        assert(spec_remove(s, ids[0]) == s);
        assert(forall|k: int| 0 <= k < ids.drop_first().len() ==> ids.drop_first()[k] == ids[k + 1]);
        lemma_remove_all_noop(s, ids.drop_first());
    }
}

/// Nearest-neighbour correctness over the built partition: the query is
/// `Some` exactly on a non-empty point set, the returned point is one of
/// the set at minimal distance, and ties go to the earliest point in the
/// partition's canonical order, the same one on every run over the same
/// input order.
pub proof fn lemma_nearest_is_minimum(q: Coord, s: Seq<Point>, dims: int)
    ensures
        spec_nearest(q, spec_build(s, 0, dims)) is Some <==> s.len() > 0,
        spec_nearest(q, spec_build(s, 0, dims)) matches Some(p) ==> s.contains(p) && forall|
            i: int,
        |
            0 <= i < s.len() ==> dist_sq_spec(q, (#[trigger] s[i]).coord) >= dist_sq_spec(
                q,
                p.coord,
            ),
        s.len() > 0 ==> spec_nearest(q, spec_build(s, 0, dims)) == Some(
            spec_build(s, 0, dims)[first_min_idx(q, spec_build(s, 0, dims))],
        ) && is_first_min(q, spec_build(s, 0, dims), first_min_idx(q, spec_build(s, 0, dims))),
{
    let t = spec_build(s, 0, dims);
    lemma_spec_build_multiset(s, 0, dims);
    lemma_nearest_is_first_min(q, t);
    if s.len() > 0 {
        let p = t[first_min_idx(q, t)];
        assert(t.contains(p));
        assert(t.to_multiset().count(p) > 0);
        assert(s.contains(p));
        assert forall|i: int| 0 <= i < s.len() implies dist_sq_spec(
            q,
            (#[trigger] s[i]).coord,
        ) >= dist_sq_spec(q, p.coord) by {
            assert(s.contains(s[i]));
            assert(s.to_multiset().count(s[i]) > 0);
            assert(t.contains(s[i]));
            let k = choose|k: int| 0 <= k < t.len() && t[k] == s[i];
            assert(dist_sq_spec(q, t[k].coord) >= dist_sq_spec(q, p.coord));
        }
    }
}

/// Within-distance correctness over the built partition: a point is in the
/// result exactly when it is in the point set and within the squared
/// radius — no omissions and no extras, independent of order.
pub proof fn lemma_within_is_exact(q: Coord, s: Seq<Point>, dims: int, r2: int)
    ensures
        forall|p: Point|
            #[trigger] spec_within(q, spec_build(s, 0, dims), r2).contains(p) <==> s.contains(p)
                && dist_sq_spec(q, p.coord) <= r2,
{
    let t = spec_build(s, 0, dims);
    lemma_spec_build_multiset(s, 0, dims);
    lemma_within_exact(q, t, r2);
    assert forall|p: Point| #[trigger]
        spec_within(q, t, r2).contains(p) <==> s.contains(p) && dist_sq_spec(q, p.coord)
            <= r2 by {
        if spec_within(q, t, r2).contains(p) {
            assert(t.contains(p));
            assert(t.to_multiset().count(p) > 0);
            assert(s.contains(p));
        }
        if s.contains(p) {
            assert(s.to_multiset().count(p) > 0);
            assert(t.contains(p));
        }
    }
}

/// Removal correctness: once a cycle reports an identifier removed and the
/// change batch no longer carries it, neither query of the rebuilt
/// partition ever returns that identifier.
pub proof fn lemma_removed_never_returned(
    s: Seq<Point>,
    cs: Seq<(Point, bool)>,
    ids: Seq<u64>,
    rid: u64,
    q: Coord,
    dims: int,
    r2: int,
)
    requires
        unique_ids(s),
        ids.contains(rid),
        forall|j: int| 0 <= j < cs.len() ==> (#[trigger] cs[j]).0.id != rid,
    ensures
        spec_nearest(q, spec_build(spec_apply(s, cs, ids), 0, dims)) matches Some(p) ==> p.id
            != rid,
        forall|p: Point|
            #[trigger] spec_within(q, spec_build(spec_apply(s, cs, ids), 0, dims), r2).contains(p)
                ==> p.id != rid,
{
    let s1 = spec_remove_all(s, ids);
    let a = spec_apply(s, cs, ids);
    lemma_remove_all_contains(s, ids);
    lemma_upsert_all_contains(s1, cs);
    assert(!contains_id(a, rid));
    let t = spec_build(a, 0, dims);
    lemma_spec_build_multiset(a, 0, dims);
    lemma_nearest_is_first_min(q, t);
    lemma_within_exact(q, t, r2);
    assert forall|p: Point| t.contains(p) implies p.id != rid by {
        assert(t.to_multiset().count(p) > 0);
        assert(a.contains(p));
        let k = choose|k: int| 0 <= k < a.len() && a[k] == p;
        if p.id == rid {
            assert(contains_id(a, rid));
        }
    }
    if t.len() > 0 {
        assert(t.contains(t[first_min_idx(q, t)]));
    }
}

/// Idempotence of reconciliation: running the same cycle twice — removals
/// disjoint from the changes, one change per identifier — leaves the point
/// sequence, and with it the partition every query reads, exactly as after
/// the first run.
pub proof fn lemma_update_idempotent(s: Seq<Point>, cs: Seq<(Point, bool)>, ids: Seq<u64>, dims: int)
    requires
        unique_ids(s),
        forall|i: int, j: int|
            0 <= i < ids.len() && 0 <= j < cs.len() ==> #[trigger] ids[i] != (#[trigger] cs[j]).0.id,
        forall|i: int, j: int| 0 <= i < j < cs.len() ==> cs[i].0.id != cs[j].0.id,
    ensures
        spec_apply(spec_apply(s, cs, ids), cs, ids) == spec_apply(s, cs, ids),
        spec_build(spec_apply(spec_apply(s, cs, ids), cs, ids), 0, dims) == spec_build(
            spec_apply(s, cs, ids),
            0,
            dims,
        ),
{
    let s1 = spec_remove_all(s, ids);
    let a = spec_apply(s, cs, ids);
    lemma_remove_all_contains(s, ids);
    lemma_upsert_all_contains(s1, cs);
    assert forall|k: int| 0 <= k < ids.len() implies !contains_id(a, #[trigger] ids[k]) by {
        assert(!contains_id(s1, ids[k]));
        if exists|j: int| 0 <= j < cs.len() && (#[trigger] cs[j]).0.id == ids[k] {
            let j = choose|j: int| 0 <= j < cs.len() && (#[trigger] cs[j]).0.id == ids[k];
        }
    }
    lemma_remove_all_noop(a, ids);
    lemma_upsert_all_entries(s1, cs);
    lemma_upsert_all_noop(a, cs);
}

} // verus!
