//! The raw collection of identified points.
//!
//! `PointSet` owns the identifier-to-coordinate mapping in insertion order,
//! plus a generation counter per identifier. The generation of an identifier
//! counts how many times it has been removed, so a handle reused after a
//! removal is distinguishable from the logical point it used to name.

use vstd::prelude::*;
use vstd::pervasive::VecAdditionalExecFns;
use crate::coord::Coord;

verus! {

/// One tracked point: an opaque identifier paired with its coordinate.
#[derive(Clone, Copy, PartialEq, Eq, Structural, Debug)]
pub struct Point {
    pub id: u64,
    pub coord: Coord,
}

/// Some entry of `s` carries identifier `id`.
pub open spec fn contains_id(s: Seq<Point>, id: u64) -> bool {
    exists|i: int| 0 <= i < s.len() && s[i].id == id
}

/// Index of the first entry of `s` carrying `id`, or -1 when there is none.
pub open spec fn find_idx(s: Seq<Point>, id: u64) -> int
    decreases s.len(),
{
    if s.len() == 0 {
        -1
    } else if s[0].id == id {
        0
    } else {
        let r = find_idx(s.drop_first(), id);
        if r < 0 {
            -1
        } else {
            r + 1
        }
    }
}

/// No two entries of `s` carry the same identifier.
pub open spec fn unique_ids(s: Seq<Point>) -> bool {
    forall|i: int, j: int| 0 <= i < j < s.len() ==> s[i].id != s[j].id
}

/// Every coordinate of `s` lies within the fixed-point range.
pub open spec fn valid_coords(s: Seq<Point>) -> bool {
    forall|i: int| 0 <= i < s.len() ==> (#[trigger] s[i]).coord.valid()
}

/// The sequence after inserting or overwriting the entry for `p.id`:
/// an existing entry keeps its position, a new one is appended.
pub open spec fn spec_upsert(s: Seq<Point>, p: Point) -> Seq<Point> {
    if contains_id(s, p.id) {
        s.update(find_idx(s, p.id), p)
    } else {
        s.push(p)
    }
}

/// The sequence after removing the entry for `id`, keeping the order of the
/// rest; removing an absent identifier changes nothing.
pub open spec fn spec_remove(s: Seq<Point>, id: u64) -> Seq<Point> {
    if contains_id(s, id) {
        s.remove(find_idx(s, id))
    } else {
        s
    }
}

/// `find_idx` finds exactly the first entry with the identifier.
pub proof fn lemma_find_idx(s: Seq<Point>, id: u64)
    ensures
        contains_id(s, id) <==> find_idx(s, id) >= 0,
        find_idx(s, id) >= 0 ==> {
            &&& find_idx(s, id) < s.len()
            &&& s[find_idx(s, id)].id == id
            &&& forall|j: int| 0 <= j < find_idx(s, id) ==> s[j].id != id
        },
    decreases s.len(),
{
    if s.len() == 0 {
    } else if s[0].id == id {
    } else {
        lemma_find_idx(s.drop_first(), id);
        let r = find_idx(s.drop_first(), id);
        if r >= 0 {
            assert(s[r + 1] == s.drop_first()[r]);
            assert(forall|j: int| 1 <= j < r + 1 ==> s[j] == s.drop_first()[j - 1]);
        } else {
            assert(forall|i: int| 1 <= i < s.len() ==> s[i] == s.drop_first()[i - 1]);
            assert(!contains_id(s, id)) by {
                if contains_id(s, id) {
                    let i = choose|i: int| 0 <= i < s.len() && s[i].id == id;
                    assert(s.drop_first()[i - 1].id == id);
                    assert(contains_id(s.drop_first(), id));
                }
            }
        }
        if contains_id(s.drop_first(), id) {
            assert(contains_id(s, id)) by {
                let i = choose|i: int| 0 <= i < s.drop_first().len() && s.drop_first()[i].id == id;
                assert(s[i + 1].id == id);
            }
        }
    }
}

/// The next generation counter value: one more, saturating at the
/// representable limit.
pub open spec fn bumped(g: u64) -> u64 {
    if g < u64::MAX {
        (g + 1) as u64
    } else {
        g
    }
}

/// The tracked point set: entries in insertion order plus per-identifier
/// generation counters for identifiers that have been removed at least once.
pub struct PointSet {
    entries: Vec<Point>,
    gens: Vec<(u64, u64)>,
}

/// Index of the first generation record for `id`, or -1.
pub open spec fn gen_find(g: Seq<(u64, u64)>, id: u64) -> int
    decreases g.len(),
{
    if g.len() == 0 {
        -1
    } else if g[0].0 == id {
        0
    } else {
        let r = gen_find(g.drop_first(), id);
        if r < 0 {
            -1
        } else {
            r + 1
        }
    }
}

/// `gen_find` finds exactly the first record with the identifier.
proof fn lemma_gen_find(g: Seq<(u64, u64)>, id: u64)
    ensures
        (exists|i: int| 0 <= i < g.len() && g[i].0 == id) <==> gen_find(g, id) >= 0,
        gen_find(g, id) >= 0 ==> {
            &&& gen_find(g, id) < g.len()
            &&& g[gen_find(g, id)].0 == id
            &&& forall|j: int| 0 <= j < gen_find(g, id) ==> g[j].0 != id
        },
    decreases g.len(),
{
    if g.len() == 0 {
    } else if g[0].0 == id {
    } else {
        lemma_gen_find(g.drop_first(), id);
        let r = gen_find(g.drop_first(), id);
        if r >= 0 {
            assert(g[r + 1] == g.drop_first()[r]);
            assert(forall|j: int| 1 <= j < r + 1 ==> g[j] == g.drop_first()[j - 1]);
        } else {
            if exists|i: int| 0 <= i < g.len() && g[i].0 == id {
                let i = choose|i: int| 0 <= i < g.len() && g[i].0 == id;
                assert(g.drop_first()[i - 1].0 == id);
            }
        }
        if exists|i: int| 0 <= i < g.drop_first().len() && g.drop_first()[i].0 == id {
            let i = choose|i: int| 0 <= i < g.drop_first().len() && g.drop_first()[i].0 == id;
            assert(g[i + 1].0 == id);
        }
    }
}

impl PointSet {
    /// The live entries, in insertion order.
    pub closed spec fn view(self) -> Seq<Point> {
        self.entries@
    }

    /// Current generation of `id`: the number of times it has been removed.
    pub closed spec fn spec_generation(self, id: u64) -> u64 {
        if gen_find(self.gens@, id) >= 0 {
            self.gens@[gen_find(self.gens@, id)].1
        } else {
            0
        }
    }

    /// Identifiers are unique among generation records.
    pub closed spec fn gens_wf(self) -> bool {
        forall|i: int, j: int|
            0 <= i < j < self.gens@.len() ==> self.gens@[i].0 != self.gens@[j].0
    }

    /// Identifiers are unique among entries and among generation records,
    /// and every stored coordinate is in range.
    pub open spec fn wf(self) -> bool {
        &&& unique_ids(self@)
        &&& valid_coords(self@)
        &&& self.gens_wf()
    }

    pub fn new() -> (r: PointSet)
        ensures
            r.wf(),
            r@ == Seq::<Point>::empty(),
            forall|id: u64| r.spec_generation(id) == 0,
    {
        let r = PointSet { entries: Vec::new(), gens: Vec::new() };
        proof {
            assert(r.entries@ =~= Seq::<Point>::empty());
            assert forall|id: u64| r.spec_generation(id) == 0 by {
                lemma_gen_find(r.gens@, id);
            }
        }
        r
    }

    pub fn len(&self) -> (r: usize)
        ensures
            r == self@.len(),
    {
        self.entries.len()
    }

    /// Insert `p`, or overwrite the coordinate of an existing entry with the
    /// same identifier in place. Generations are untouched.
    pub fn upsert(&mut self, p: Point)
        requires
            old(self).wf(),
            p.coord.valid(),
        ensures
            final(self).wf(),
            final(self)@ == spec_upsert(old(self)@, p),
            forall|id: u64| final(self).spec_generation(id) == old(self).spec_generation(id),
    {
        proof {
            lemma_find_idx(self.entries@, p.id);
        }
        let n = self.entries.len();
        let mut i: usize = 0;
        while i < n
            invariant
                old(self).wf(),
                p.coord.valid(),
                n == self.entries@.len(),
                i <= n,
                self.entries@ == old(self).entries@,
                self.gens@ == old(self).gens@,
                forall|j: int| 0 <= j < i ==> self.entries@[j].id != p.id,
            decreases n - i,
        {
            if self.entries[i].id == p.id {
                proof {
                    let s = self.entries@;
                    lemma_find_idx(s, p.id);
                    assert(contains_id(s, p.id));
                    assert(find_idx(s, p.id) == i);
                }
                self.entries.set(i, p);
                proof {
                    let s = old(self).entries@;
                    let u = self.entries@;
                    assert forall|k: int| 0 <= k < u.len() implies #[trigger] u[k].id == s[k].id by {
                        if k == i {
                            assert(u[k] == p);
                        } else {
                            assert(u[k] == s[k]);
                        }
                    }
                    assert forall|k: int| 0 <= k < u.len() implies (#[trigger] u[k]).coord.valid() by {
                        if k == i {
                            assert(u[k] == p);
                        } else {
                            assert(u[k] == s[k]);
                            assert(s[k].coord.valid());
                        }
                    }
                    assert(unique_ids(u));
                }
                return ;
            }
            i += 1;
        }
        proof {
            let s = self.entries@;
            if contains_id(s, p.id) {
                let k = choose|k: int| 0 <= k < s.len() && s[k].id == p.id;
                assert(s[k].id != p.id);
            }
        }
        self.entries.push(p);
    }

    /// Remove the entry for `id`, if any, and bump its generation counter.
    /// Removing an absent identifier is a no-op.
    pub fn remove(&mut self, id: u64)
        requires
            old(self).wf(),
        ensures
            final(self).wf(),
            final(self)@ == spec_remove(old(self)@, id),
            contains_id(old(self)@, id) ==> final(self).spec_generation(id)
                == bumped(old(self).spec_generation(id)),
            !contains_id(old(self)@, id) ==> final(self).spec_generation(id)
                == old(self).spec_generation(id),
            forall|other: u64| other != id ==> final(self).spec_generation(other)
                == old(self).spec_generation(other),
    {
        proof {
            lemma_find_idx(self.entries@, id);
        }
        let n = self.entries.len();
        let mut i: usize = 0;
        while i < n
            invariant
                old(self).wf(),
                n == self.entries@.len(),
                i <= n,
                self.entries@ == old(self).entries@,
                self.gens@ == old(self).gens@,
                forall|j: int| 0 <= j < i ==> self.entries@[j].id != id,
            decreases n - i,
        {
            if self.entries[i].id == id {
                proof {
                    let s = self.entries@;
                    lemma_find_idx(s, id);
                    assert(contains_id(s, id));
                    assert(find_idx(s, id) == i);
                }
                self.entries.remove(i);
                proof {
                    let s = old(self).entries@;
                    let u = self.entries@;
                    assert forall|k: int|
                        0 <= k < u.len() implies #[trigger] u[k] == (if k < i {
                        s[k]
                    } else {
                        s[k + 1]
                    }) by {}
                    assert forall|a: int, b: int| 0 <= a < b < u.len() implies #[trigger] u[a].id
                        != #[trigger] u[b].id by {
                        let sa: int = if a < i { a } else { a + 1 };
                        let sb: int = if b < i { b } else { b + 1 };
                        assert(u[a] == s[sa]);
                        assert(u[b] == s[sb]);
                        assert(s[sa].id != s[sb].id);
                    }
                    assert forall|k: int| 0 <= k < u.len() implies (#[trigger] u[k]).coord.valid() by {
                        let sk: int = if k < i { k } else { k + 1 };
                        assert(u[k] == s[sk]);
                        assert(s[sk].coord.valid());
                    }
                    assert(unique_ids(u));
                    assert(valid_coords(u));
                }
                self.bump_generation(id);
                return ;
            }
            i += 1;
        }
        proof {
            let s = self.entries@;
            if contains_id(s, id) {
                let k = choose|k: int| 0 <= k < s.len() && s[k].id == id;
                assert(s[k].id != id);
            }
        }
    }

    /// Increment the stored generation counter of `id` (saturating).
    fn bump_generation(&mut self, id: u64)
        requires
            forall|i: int, j: int|
                0 <= i < j < old(self).gens@.len() ==> old(self).gens@[i].0 != old(self).gens@[j].0,
        ensures
            final(self).entries@ == old(self).entries@,
            final(self).spec_generation(id) == bumped(old(self).spec_generation(id)),
            forall|other: u64| other != id ==> final(self).spec_generation(other)
                == old(self).spec_generation(other),
            forall|i: int, j: int|
                0 <= i < j < final(self).gens@.len() ==> final(self).gens@[i].0 != final(self).gens@[j].0,
    {
        proof {
            lemma_gen_find(self.gens@, id);
        }
        let n = self.gens.len();
        let mut i: usize = 0;
        while i < n
            invariant
                forall|a: int, b: int|
                    0 <= a < b < old(self).gens@.len() ==> old(self).gens@[a].0 != old(self).gens@[b].0,
                n == self.gens@.len(),
                i <= n,
                self.gens@ == old(self).gens@,
                self.entries@ == old(self).entries@,
                forall|j: int| 0 <= j < i ==> self.gens@[j].0 != id,
            decreases n - i,
        {
            let (gid, g) = self.gens[i];
            if gid == id {
                let g2: u64 = if g < u64::MAX {
                    g + 1
                } else {
                    g
                };
                self.gens.set(i, (id, g2));
                proof {
                    let gs = self.gens@;
                    let go = old(self).gens@;
                    assert forall|k: int| 0 <= k < gs.len() implies #[trigger] gs[k].0 == go[k].0 by {
                        if k == i {
                            assert(gs[k] == (id, g2));
                        } else {
                            assert(gs[k] == go[k]);
                        }
                    }
                    assert forall|a: int, b: int| 0 <= a < b < gs.len() implies #[trigger] gs[a].0
                        != #[trigger] gs[b].0 by {
                        assert(go[a].0 != go[b].0);
                    }
                    lemma_gen_find(gs, id);
                    lemma_gen_find(go, id);
                    assert(go[i as int].0 == id);
                    assert(gen_find(go, id) == i);
                    assert(gs[i as int].0 == id);
                    assert(gen_find(gs, id) == i);
                    assert forall|other: u64| other != id implies self.spec_generation(other)
                        == old(self).spec_generation(other) by {
                        lemma_gen_find(gs, other);
                        lemma_gen_find(go, other);
                        let r_new = gen_find(gs, other);
                        let r_old = gen_find(go, other);
                        if r_old >= 0 {
                            assert(go[r_old].0 == other);
                            assert(r_old != i);
                            assert(gs[r_old].0 == other);
                        }
                        if r_new >= 0 {
                            assert(gs[r_new].0 == other);
                            assert(r_new != i);
                            assert(go[r_new].0 == other);
                        }
                    }
                }
                return ;
            }
            i += 1;
        }
        self.gens.push((id, 1));
        proof {
            let gs = self.gens@;
            let go = old(self).gens@;
            lemma_gen_find(go, id);
            assert(gen_find(go, id) < 0);
            assert(old(self).spec_generation(id) == 0);
            lemma_gen_find(gs, id);
            assert(gs[n as int].0 == id);
            assert(gen_find(gs, id) >= 0);
            let fi = gen_find(gs, id);
            if fi < n {
                assert(go[fi].0 == id);
                assert(gen_find(go, id) >= 0);
            }
            assert(fi == n);
            assert forall|a: int, b: int| 0 <= a < b < gs.len() implies #[trigger] gs[a].0
                != #[trigger] gs[b].0 by {
                if b == n {
                    assert(gs[a] == go[a]);
                    assert(gs[b].0 == id);
                    assert(go[a].0 != id);
                } else {
                    assert(gs[a] == go[a]);
                    assert(gs[b] == go[b]);
                }
            }
            assert forall|other: u64| other != id implies self.spec_generation(other)
                == old(self).spec_generation(other) by {
                lemma_gen_find(gs, other);
                lemma_gen_find(go, other);
                let r_new = gen_find(gs, other);
                let r_old = gen_find(go, other);
                if r_old >= 0 {
                    assert(go[r_old].0 == other);
                    assert(gs[r_old].0 == other);
                }
                if r_new >= 0 {
                    assert(gs[r_new].0 == other);
                    assert(r_new != n);
                    assert(go[r_new].0 == other);
                }
            }
        }
    }

    /// The current set as an owned sequence in insertion order, fit for
    /// handing to the tree builder.
    pub fn snapshot(&self) -> (r: Vec<Point>)
        ensures
            r@ == self@,
    {
        let n = self.entries.len();
        let mut out: Vec<Point> = Vec::new();
        let mut i: usize = 0;
        while i < n
            invariant
                n == self.entries@.len(),
                i <= n,
                out@ == self.entries@.take(i as int),
            decreases n - i,
        {
            out.push(self.entries[i]);
            proof {
                assert(out@ =~= self.entries@.take(i + 1));
            }
            i += 1;
        }
        proof {
            assert(out@ =~= self.entries@);
        }
        out
    }

    /// Current coordinate of `id`, or `None` when the identifier is not live.
    pub fn resolve(&self, id: u64) -> (r: Option<Coord>)
        ensures
            contains_id(self@, id) ==> r == Some(self@[find_idx(self@, id)].coord),
            !contains_id(self@, id) ==> r is None,
    {
        proof {
            lemma_find_idx(self.entries@, id);
        }
        let n = self.entries.len();
        let mut i: usize = 0;
        while i < n
            invariant
                n == self.entries@.len(),
                i <= n,
                forall|j: int| 0 <= j < i ==> self.entries@[j].id != id,
            decreases n - i,
        {
            if self.entries[i].id == id {
                proof {
                    let s = self.entries@;
                    lemma_find_idx(s, id);
                    assert(contains_id(s, id));
                    assert(find_idx(s, id) == i);
                }
                return Some(self.entries[i].coord);
            }
            i += 1;
        }
        proof {
            let s = self.entries@;
            if contains_id(s, id) {
                let k = choose|k: int| 0 <= k < s.len() && s[k].id == id;
                assert(s[k].id != id);
            }
        }
        None
    }

    /// Current generation counter of `id` (0 when never removed).
    pub fn generation(&self, id: u64) -> (r: u64)
        ensures
            r == self.spec_generation(id),
    {
        proof {
            lemma_gen_find(self.gens@, id);
        }
        let n = self.gens.len();
        let mut i: usize = 0;
        while i < n
            invariant
                n == self.gens@.len(),
                i <= n,
                forall|j: int| 0 <= j < i ==> self.gens@[j].0 != id,
            decreases n - i,
        {
            let (gid, g) = self.gens[i];
            if gid == id {
                proof {
                    let gs = self.gens@;
                    lemma_gen_find(gs, id);
                    assert(gs[i as int].0 == id);
                    assert(gen_find(gs, id) == i);
                }
                return g;
            }
            i += 1;
        }
        proof {
            let gs = self.gens@;
            lemma_gen_find(gs, id);
            if exists|k: int| 0 <= k < gs.len() && gs[k].0 == id {
                let k = choose|k: int| 0 <= k < gs.len() && gs[k].0 == id;
                assert(gs[k].0 != id);
            }
        }
        0
    }
}

} // verus!
