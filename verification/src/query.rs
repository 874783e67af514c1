//! Queries against a built partition.
//!
//! Both queries are branch-and-bound traversals: a subtree is skipped only
//! when the gap between the query point and the node's splitting plane
//! proves that nothing on the far side can matter. Results are pinned to
//! spec-level folds over the partition's canonical point order, so equal
//! partitions answer every query equally.

use vstd::prelude::*;
use crate::coord::{Coord, dist_sq, dist_sq_spec, sq_of_diff, lemma_plane_gap_bounds_dist};
use crate::point_set::Point;
use crate::tree::Partition;

verus! {

/// Left fold of the nearest candidate over `s`: a later point displaces the
/// running best only when it is strictly closer, so among equidistant
/// points the earliest in canonical order wins.
pub open spec fn nn_fold(q: Coord, s: Seq<Point>, best: Option<Point>) -> Option<Point>
    decreases s.len(),
{
    if s.len() == 0 {
        best
    } else {
        let cand = s[0];
        let nb = match best {
            None => Some(cand),
            Some(b) => if dist_sq_spec(q, cand.coord) < dist_sq_spec(q, b.coord) {
                Some(cand)
            } else {
                Some(b)
            },
        };
        nn_fold(q, s.drop_first(), nb)
    }
}

/// The nearest point of `s` to `q`, ties resolved to the earliest in
/// canonical order; `None` exactly when `s` is empty.
pub open spec fn spec_nearest(q: Coord, s: Seq<Point>) -> Option<Point> {
    nn_fold(q, s, None)
}

/// `p` lies within the ball of squared radius `r2` around `q`.
pub open spec fn in_ball(q: Coord, p: Point, r2: int) -> bool {
    dist_sq_spec(q, p.coord) <= r2
}

/// The subsequence of `s`, in canonical order, within squared radius `r2`
/// of `q`.
pub open spec fn spec_within(q: Coord, s: Seq<Point>, r2: int) -> Seq<Point> {
    s.filter(|p: Point| in_ball(q, p, r2))
}

/// A fold over an empty sequence returns its seed.
proof fn lemma_nn_fold_empty(q: Coord, s: Seq<Point>, best: Option<Point>)
    requires
        s.len() == 0,
    ensures
        nn_fold(q, s, best) == best,
{
}

/// A fold over a single point keeps the strictly closer of seed and point,
/// the seed on ties.
proof fn lemma_nn_fold_single(q: Coord, p: Point, best: Option<Point>)
    ensures
        nn_fold(q, seq![p], best) == match best {
            None => Some(p),
            Some(b) => if dist_sq_spec(q, p.coord) < dist_sq_spec(q, b.coord) {
                Some(p)
            } else {
                Some(b)
            },
        },
{
    let nb = match best {
        None => Some(p),
        Some(b) => if dist_sq_spec(q, p.coord) < dist_sq_spec(q, b.coord) {
            Some(p)
        } else {
            Some(b)
        },
    };
    assert(seq![p].drop_first().len() == 0);
    lemma_nn_fold_empty(q, seq![p].drop_first(), nb);
}

/// Folding over a concatenation folds over the parts in turn.
proof fn lemma_nn_fold_concat(q: Coord, a: Seq<Point>, b: Seq<Point>, best: Option<Point>)
    ensures
        nn_fold(q, a + b, best) == nn_fold(q, b, nn_fold(q, a, best)),
    decreases a.len(),
{
    if a.len() == 0 {
        assert(a + b =~= b);
    } else {
        let cand = a[0];
        let nb = match best {
            None => Some(cand),
            Some(bb) => if dist_sq_spec(q, cand.coord) < dist_sq_spec(q, bb.coord) {
                Some(cand)
            } else {
                Some(bb)
            },
        };
        assert((a + b)[0] == cand);
        assert((a + b).drop_first() =~= a.drop_first() + b);
        lemma_nn_fold_concat(q, a.drop_first(), b, nb);
    }
}

/// A fold over points that are all at least as far as the running best
/// leaves the best unchanged.
proof fn lemma_nn_fold_skip(q: Coord, s: Seq<Point>, b: Point)
    requires
        forall|i: int|
            0 <= i < s.len() ==> dist_sq_spec(q, (#[trigger] s[i]).coord) >= dist_sq_spec(
                q,
                b.coord,
            ),
    ensures
        nn_fold(q, s, Some(b)) == Some(b),
    decreases s.len(),
{
    if s.len() == 0 {
    } else {
        assert(dist_sq_spec(q, s[0].coord) >= dist_sq_spec(q, b.coord));
        assert(forall|i: int| 0 <= i < s.drop_first().len() ==> s.drop_first()[i] == s[i + 1]);
        lemma_nn_fold_skip(q, s.drop_first(), b);
    }
}

/// Index of the first point of `s` at minimal distance to `q`.
pub open spec fn first_min_idx(q: Coord, s: Seq<Point>) -> int
    decreases s.len(),
{
    if s.len() <= 1 {
        0
    } else {
        let k = first_min_idx(q, s.drop_first()) + 1;
        if dist_sq_spec(q, s[k].coord) < dist_sq_spec(q, s[0].coord) {
            k
        } else {
            0
        }
    }
}

/// Index `i` holds the nearest point of `s` to `q` and is the earliest
/// index attaining that distance.
pub open spec fn is_first_min(q: Coord, s: Seq<Point>, i: int) -> bool {
    &&& 0 <= i < s.len()
    &&& forall|j: int|
        0 <= j < s.len() ==> dist_sq_spec(q, (#[trigger] s[j]).coord) >= dist_sq_spec(q, s[i].coord)
    &&& forall|j: int|
        0 <= j < i ==> dist_sq_spec(q, (#[trigger] s[j]).coord) > dist_sq_spec(q, s[i].coord)
}

/// `first_min_idx` indeed picks the earliest distance-minimising index.
proof fn lemma_first_min_idx_props(q: Coord, s: Seq<Point>)
    requires
        s.len() > 0,
    ensures
        is_first_min(q, s, first_min_idx(q, s)),
    decreases s.len(),
{
    if s.len() == 1 {
    } else {
        let d = s.drop_first();
        assert(forall|i: int| 0 <= i < d.len() ==> d[i] == s[i + 1]);
        lemma_first_min_idx_props(q, d);
        let kd = first_min_idx(q, d);
        let k = kd + 1;
        if dist_sq_spec(q, s[k].coord) < dist_sq_spec(q, s[0].coord) {
            assert forall|j: int| 0 <= j < s.len() implies dist_sq_spec(
                q,
                (#[trigger] s[j]).coord,
            ) >= dist_sq_spec(q, s[k].coord) by {
                if j > 0 {
                    assert(s[j] == d[j - 1]);
                    assert(dist_sq_spec(q, d[j - 1].coord) >= dist_sq_spec(q, d[kd].coord));
                }
            }
            assert forall|j: int| 0 <= j < k implies dist_sq_spec(q, (#[trigger] s[j]).coord)
                > dist_sq_spec(q, s[k].coord) by {
                if j > 0 {
                    assert(s[j] == d[j - 1]);
                    assert(dist_sq_spec(q, d[j - 1].coord) > dist_sq_spec(q, d[kd].coord));
                }
            }
        } else {
            assert forall|j: int| 0 <= j < s.len() implies dist_sq_spec(
                q,
                (#[trigger] s[j]).coord,
            ) >= dist_sq_spec(q, s[0].coord) by {
                if j > 0 {
                    assert(s[j] == d[j - 1]);
                    assert(dist_sq_spec(q, d[j - 1].coord) >= dist_sq_spec(q, d[kd].coord));
                }
            }
        }
    }
}

/// A seeded fold returns the first minimum of the sequence when it beats
/// the seed strictly, and the seed otherwise.
proof fn lemma_nn_fold_fmi(q: Coord, s: Seq<Point>, b: Point)
    ensures
        nn_fold(q, s, Some(b)) == (if s.len() > 0 && dist_sq_spec(
            q,
            s[first_min_idx(q, s)].coord,
        ) < dist_sq_spec(q, b.coord) {
            Some(s[first_min_idx(q, s)])
        } else {
            Some(b)
        }),
    decreases s.len(),
{
    if s.len() == 0 {
    } else {
        let c = s[0];
        let d = s.drop_first();
        assert(forall|i: int| 0 <= i < d.len() ==> d[i] == s[i + 1]);
        let nb = if dist_sq_spec(q, c.coord) < dist_sq_spec(q, b.coord) {
            c
        } else {
            b
        };
        assert(nn_fold(q, s, Some(b)) == nn_fold(q, d, Some(nb)));
        lemma_nn_fold_fmi(q, d, nb);
        if s.len() == 1 {
            assert(first_min_idx(q, s) == 0);
        } else {
            lemma_first_min_idx_props(q, d);
            let kd = first_min_idx(q, d);
            assert(s[kd + 1] == d[kd]);
        }
    }
}

/// The nearest query is total on non-empty sequences and returns the point
/// at the earliest distance-minimising index: the minimum-distance
/// guarantee together with the deterministic tie-break.
pub proof fn lemma_nearest_is_first_min(q: Coord, s: Seq<Point>)
    ensures
        spec_nearest(q, s) is Some <==> s.len() > 0,
        s.len() > 0 ==> is_first_min(q, s, first_min_idx(q, s)) && spec_nearest(q, s) == Some(
            s[first_min_idx(q, s)],
        ),
{
    if s.len() > 0 {
        let c = s[0];
        let d = s.drop_first();
        assert(forall|i: int| 0 <= i < d.len() ==> d[i] == s[i + 1]);
        assert(spec_nearest(q, s) == nn_fold(q, d, Some(c)));
        lemma_nn_fold_fmi(q, d, c);
        lemma_first_min_idx_props(q, s);
        if s.len() == 1 {
            assert(first_min_idx(q, s) == 0);
        } else {
            lemma_first_min_idx_props(q, d);
            let kd = first_min_idx(q, d);
            assert(s[kd + 1] == d[kd]);
        }
    }
}

/// A filter over elements that all fail the predicate is empty.
proof fn lemma_filter_none(s: Seq<Point>, pred: spec_fn(Point) -> bool)
    requires
        forall|i: int| 0 <= i < s.len() ==> !pred(#[trigger] s[i]),
    ensures
        s.filter(pred) == Seq::<Point>::empty(),
    decreases s.len(),
{
    reveal(Seq::filter);
    if s.len() == 0 {
        assert(s.filter(pred) =~= Seq::<Point>::empty());
    } else {
        assert(forall|i: int| 0 <= i < s.drop_last().len() ==> s.drop_last()[i] == s[i]);
        lemma_filter_none(s.drop_last(), pred);
        assert(!pred(s.last()));
    }
}

/// Filtering a single point keeps it exactly when it satisfies the
/// predicate.
proof fn lemma_filter_single(p: Point, pred: spec_fn(Point) -> bool)
    ensures
        seq![p].filter(pred) == if pred(p) {
            seq![p]
        } else {
            Seq::<Point>::empty()
        },
{
    reveal(Seq::filter);
    let s = seq![p];
    assert(s.drop_last() =~= Seq::<Point>::empty());
    assert(s.drop_last().filter(pred) =~= Seq::<Point>::empty());
    if pred(p) {
        assert(s.filter(pred) =~= seq![p]);
    } else {
        assert(s.filter(pred) =~= Seq::<Point>::empty());
    }
}

/// A filtered element came from the sequence and satisfies the predicate.
proof fn lemma_filter_sub(s: Seq<Point>, pred: spec_fn(Point) -> bool, x: Point)
    requires
        s.filter(pred).contains(x),
    ensures
        s.contains(x),
        pred(x),
    decreases s.len(),
{
    reveal(Seq::filter);
    if s.len() == 0 {
    } else {
        let d = s.drop_last();
        if pred(s.last()) {
            if x == s.last() {
                assert(s[s.len() - 1] == x);
            } else {
                let f = d.filter(pred).push(s.last());
                let k = choose|k: int| 0 <= k < f.len() && f[k] == x;
                assert(d.filter(pred)[k] == x);
                lemma_filter_sub(d, pred, x);
                let w = choose|w: int| 0 <= w < d.len() && d[w] == x;
                assert(s[w] == x);
            }
        } else {
            lemma_filter_sub(d, pred, x);
            let w = choose|w: int| 0 <= w < d.len() && d[w] == x;
            assert(s[w] == x);
        }
    }
}

/// The within-distance result is exactly the subset of `s` inside the
/// ball: no omissions and no extras, independent of order.
pub proof fn lemma_within_exact(q: Coord, s: Seq<Point>, r2: int)
    ensures
        forall|p: Point|
            #[trigger] spec_within(q, s, r2).contains(p) <==> s.contains(p) && in_ball(q, p, r2),
{
    let pred = |p: Point| in_ball(q, p, r2);
    assert forall|p: Point| #[trigger] spec_within(q, s, r2).contains(p) implies s.contains(p)
        && in_ball(q, p, r2) by {
        lemma_filter_sub(s, pred, p);
        assert(pred(p));
    }
    assert forall|p: Point| s.contains(p) && in_ball(q, p, r2) implies #[trigger] spec_within(
        q,
        s,
        r2,
    ).contains(p) by {
        let i = choose|i: int| 0 <= i < s.len() && s[i] == p;
        assert(pred(s[i]));
        s.lemma_filter_contains(pred, i);
    }
}

/// The canonical split of a within-distance result at a node: the node's
/// own point (when inside the ball), then the left part, then the right.
proof fn lemma_within_split(q: Coord, pt: Point, lp: Seq<Point>, rp: Seq<Point>, r2: int)
    ensures
        spec_within(q, (seq![pt] + lp) + rp, r2) == (if in_ball(q, pt, r2) {
            seq![pt]
        } else {
            Seq::<Point>::empty()
        }) + spec_within(q, lp, r2) + spec_within(q, rp, r2),
{
    let pred = |p: Point| in_ball(q, p, r2);
    Seq::filter_distributes_over_add(seq![pt] + lp, rp, pred);
    Seq::filter_distributes_over_add(seq![pt], lp, pred);
    lemma_filter_single(pt, pred);
}

/// A subtree wholly at or below the splitting plane holds nothing within
/// the ball when the query point is farther than the radius above it.
proof fn lemma_ball_prune_low(q: Coord, sub: Seq<Point>, ax: int, v: int, r2: int)
    requires
        forall|i: int| 0 <= i < sub.len() ==> (#[trigger] sub[i]).coord.spec_axis(ax) <= v,
        q.spec_axis(ax) > v,
        (q.spec_axis(ax) - v) * (q.spec_axis(ax) - v) > r2,
    ensures
        spec_within(q, sub, r2) == Seq::<Point>::empty(),
{
    let pred = |p: Point| in_ball(q, p, r2);
    assert forall|i: int| 0 <= i < sub.len() implies !pred(#[trigger] sub[i]) by {
        lemma_plane_gap_bounds_dist(q, sub[i].coord, ax, q.spec_axis(ax) - v);
    }
    lemma_filter_none(sub, pred);
}

/// A subtree wholly at or above the splitting plane holds nothing within
/// the ball when the query point is farther than the radius below it.
proof fn lemma_ball_prune_high(q: Coord, sub: Seq<Point>, ax: int, v: int, r2: int)
    requires
        forall|i: int| 0 <= i < sub.len() ==> (#[trigger] sub[i]).coord.spec_axis(ax) >= v,
        q.spec_axis(ax) < v,
        (v - q.spec_axis(ax)) * (v - q.spec_axis(ax)) > r2,
    ensures
        spec_within(q, sub, r2) == Seq::<Point>::empty(),
{
    let pred = |p: Point| in_ball(q, p, r2);
    assert forall|i: int| 0 <= i < sub.len() implies !pred(#[trigger] sub[i]) by {
        lemma_plane_gap_bounds_dist(q, sub[i].coord, ax, v - q.spec_axis(ax));
    }
    lemma_filter_none(sub, pred);
}

impl Partition {
    /// Nearest search seeded with a running best candidate, with
    /// branch-and-bound pruning: a subtree is skipped when the squared gap
    /// to the splitting plane already reaches the best squared distance,
    /// since nothing behind the plane can then improve strictly.
    #[verifier::rlimit(40)]
    fn nearest_seeded(&self, q: Coord, b: Point) -> (r: Point)
        requires
            self.wf(),
            q.valid(),
            b.coord.valid(),
        ensures
            Some(r) == nn_fold(q, self.points(), Some(b)),
            r.coord.valid(),
        decreases self,
    {
        match self {
            Partition::Empty => {
                proof {
                    lemma_nn_fold_empty(q, self.points(), Some(b));
                }
                b
            },
            Partition::Node { point, axis, left, right } => {
                let ghost pts = self.points();
                let ghost lp = left.points();
                let ghost rp = right.points();
                let b1 = if dist_sq(q, point.coord) < dist_sq(q, b.coord) {
                    *point
                } else {
                    b
                };
                proof {
                    lemma_nn_fold_single(q, *point, Some(b));
                    assert(nn_fold(q, seq![*point], Some(b)) == Some(b1));
                    assert(pts =~= seq![*point] + (lp + rp));
                    lemma_nn_fold_concat(q, seq![*point], lp + rp, Some(b));
                    lemma_nn_fold_concat(q, lp, rp, Some(b1));
                }
                let qa = q.axis_val(*axis);
                let v = point.coord.axis_val(*axis);
                let bd1 = dist_sq(q, b1.coord);
                let b2 = if qa > v && sq_of_diff(qa, v) >= bd1 {
                    proof {
                        assert forall|i: int| 0 <= i < lp.len() implies dist_sq_spec(
                            q,
                            (#[trigger] lp[i]).coord,
                        ) >= dist_sq_spec(q, b1.coord) by {
                            lemma_plane_gap_bounds_dist(q, lp[i].coord, *axis as int, qa - v);
                        }
                        lemma_nn_fold_skip(q, lp, b1);
                    }
                    b1
                } else {
                    left.nearest_seeded(q, b1)
                };
                let bd2 = dist_sq(q, b2.coord);
                let b3 = if qa < v && sq_of_diff(v, qa) >= bd2 {
                    proof {
                        assert forall|i: int| 0 <= i < rp.len() implies dist_sq_spec(
                            q,
                            (#[trigger] rp[i]).coord,
                        ) >= dist_sq_spec(q, b2.coord) by {
                            lemma_plane_gap_bounds_dist(q, rp[i].coord, *axis as int, v - qa);
                        }
                        lemma_nn_fold_skip(q, rp, b2);
                    }
                    b2
                } else {
                    right.nearest_seeded(q, b2)
                };
                b3
            },
        }
    }

    /// Nearest point of the partition to `q`, `None` exactly on the empty
    /// partition.
    pub fn nearest(&self, q: Coord) -> (r: Option<Point>)
        requires
            self.wf(),
            q.valid(),
        ensures
            r == spec_nearest(q, self.points()),
    {
        match self {
            Partition::Empty => {
                proof {
                    lemma_nn_fold_empty(q, self.points(), None);
                }
                None
            },
            Partition::Node { point, axis, left, right } => {
                let ghost pts = self.points();
                let ghost lp = left.points();
                let ghost rp = right.points();
                proof {
                    lemma_nn_fold_single(q, *point, None);
                    assert(pts =~= seq![*point] + (lp + rp));
                    lemma_nn_fold_concat(q, seq![*point], lp + rp, None);
                    lemma_nn_fold_concat(q, lp, rp, Some(*point));
                }
                let b2 = left.nearest_seeded(q, *point);
                let b3 = right.nearest_seeded(q, b2);
                Some(b3)
            },
        }
    }

    /// Append every point within squared radius `radius_sq` of `q` to
    /// `out`, in canonical order, skipping subtrees whose splitting plane
    /// is farther than the radius.
    #[verifier::rlimit(60)]
    fn within_rec(&self, q: Coord, radius_sq: u64, out: &mut Vec<Point>)
        requires
            self.wf(),
            q.valid(),
        ensures
            final(out)@ == old(out)@ + spec_within(q, self.points(), radius_sq as int),
        decreases self,
    {
        let ghost r2 = radius_sq as int;
        match self {
            Partition::Empty => {
                proof {
                    assert(self.points() =~= Seq::<Point>::empty());
                    lemma_filter_none(self.points(), |p: Point| in_ball(q, p, r2));
                    assert(out@ + spec_within(q, self.points(), r2) =~= out@);
                }
            },
            Partition::Node { point, axis, left, right } => {
                let ghost pts = self.points();
                let ghost lp = left.points();
                let ghost rp = right.points();
                let ghost out0 = out@;
                let ghost nodepart = if in_ball(q, *point, r2) {
                    seq![*point]
                } else {
                    Seq::<Point>::empty()
                };
                proof {
                    assert(pts == (seq![*point] + lp) + rp);
                    lemma_within_split(q, *point, lp, rp, r2);
                }
                if dist_sq(q, point.coord) <= radius_sq {
                    out.push(*point);
                    proof {
                        assert(out@ =~= out0 + nodepart);
                    }
                } else {
                    proof {
                        assert(out@ =~= out0 + nodepart);
                    }
                }
                let ghost out1 = out@;
                let qa = q.axis_val(*axis);
                let v = point.coord.axis_val(*axis);
                if qa > v && sq_of_diff(qa, v) > radius_sq {
                    proof {
                        lemma_ball_prune_low(q, lp, *axis as int, v as int, r2);
                        assert(out@ =~= out1 + spec_within(q, lp, r2));
                    }
                } else {
                    left.within_rec(q, radius_sq, out);
                }
                let ghost out2 = out@;
                if qa < v && sq_of_diff(v, qa) > radius_sq {
                    proof {
                        lemma_ball_prune_high(q, rp, *axis as int, v as int, r2);
                        assert(out@ =~= out2 + spec_within(q, rp, r2));
                    }
                } else {
                    right.within_rec(q, radius_sq, out);
                }
                proof {
                    assert(out@ =~= out0 + spec_within(q, pts, r2));
                }
            },
        }
    }

    /// All points of the partition within squared radius `radius_sq` of
    /// `q`, in canonical order.
    pub fn within(&self, q: Coord, radius_sq: u64) -> (r: Vec<Point>)
        requires
            self.wf(),
            q.valid(),
        ensures
            r@ == spec_within(q, self.points(), radius_sq as int),
    {
        let mut out: Vec<Point> = Vec::new();
        self.within_rec(q, radius_sq, &mut out);
        proof {
            assert(out@ =~= spec_within(q, self.points(), radius_sq as int));
        }
        out
    }
}

} // verus!
