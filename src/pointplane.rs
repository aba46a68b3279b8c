//! The summary of a trace: how often each point was visited, and the graph of the steps taken
//! between consecutive points.

use crate::connection::Connection;
use crate::graph::{lemma_edge_weight_bounded, lemma_touching_weight, Graph};
use crate::point::Point;
use vstd::prelude::*;

verus! {

/// A visit count as a plain value: a point and how many times it was visited.
pub type Visit = (Point, usize);

/// The count that `s` records for `p`, or 0 where it has no entry for `p`.
pub open spec fn count_in(s: Seq<Visit>, p: Point) -> nat
    decreases s.len(),
{
    if s.len() == 0 {
        0
    } else if s.last().0 == p {
        s.last().1 as nat
    } else {
        count_in(s.drop_last(), p)
    }
}

/// No two entries of `s` are for the same point.
pub open spec fn distinct_points(s: Seq<Visit>) -> bool {
    forall|i: int, j: int| 0 <= i < s.len() && 0 <= j < s.len() && i != j ==> s[i].0 != s[j].0
}

/// Every entry of `s` counts at least one visit.
pub open spec fn all_visited(s: Seq<Visit>) -> bool {
    forall|i: int| 0 <= i < s.len() ==> s[i].1 >= 1
}

/// The counts of `s`, added up.
pub open spec fn sum_counts(s: Seq<Visit>) -> nat
    decreases s.len(),
{
    if s.len() == 0 {
        0
    } else {
        sum_counts(s.drop_last()) + s.last().1 as nat
    }
}

/// The entries of `s` whose count is not `count`, in their order.
pub open spec fn without_count(s: Seq<Visit>, count: nat) -> Seq<Visit>
    decreases s.len(),
{
    if s.len() == 0 {
        s
    } else if s.last().1 == count {
        without_count(s.drop_last(), count)
    } else {
        without_count(s.drop_last(), count).push(s.last())
    }
}

/// How many times `p` occurs in `points`.
pub open spec fn occurrences(points: Seq<Point>, p: Point) -> nat
    decreases points.len(),
{
    if points.len() == 0 {
        0
    } else {
        occurrences(points.drop_last(), p) + if points.last() == p {
            1nat
        } else {
            0nat
        }
    }
}

/// How many times `b` comes right after `a` in `points`.
pub open spec fn transitions(points: Seq<Point>, a: Point, b: Point) -> nat
    decreases points.len(),
{
    if points.len() < 2 {
        0
    } else {
        transitions(points.drop_last(), a, b) + if points[points.len() - 2] == a && points.last()
            == b {
            1nat
        } else {
            0nat
        }
    }
}

/// How many pairs of consecutive points of `points` have `p` at one end or at both.
pub open spec fn touching_steps(points: Seq<Point>, p: Point) -> nat
    decreases points.len(),
{
    if points.len() < 2 {
        0
    } else {
        touching_steps(points.drop_last(), p) + if points[points.len() - 2] == p || points.last()
            == p {
            1nat
        } else {
            0nat
        }
    }
}

proof fn lemma_count_at(s: Seq<Visit>, i: int)
    requires
        distinct_points(s),
        0 <= i < s.len(),
    ensures
        count_in(s, s[i].0) == s[i].1,
    decreases s.len(),
{
    if i < s.len() - 1 {
        assert(s.drop_last()[i] == s[i]);
        assert(distinct_points(s.drop_last()));
        lemma_count_at(s.drop_last(), i);
    }
}

proof fn lemma_count_absent(s: Seq<Visit>, p: Point)
    requires
        forall|i: int| 0 <= i < s.len() ==> s[i].0 != p,
    ensures
        count_in(s, p) == 0,
    decreases s.len(),
{
    if s.len() > 0 {
        lemma_count_absent(s.drop_last(), p);
    }
}

proof fn lemma_sum_counts_update(s: Seq<Visit>, i: int, e: Visit)
    requires
        0 <= i < s.len(),
    ensures
        sum_counts(s.update(i, e)) == sum_counts(s) - s[i].1 + e.1,
    decreases s.len(),
{
    let u = s.update(i, e);
    if i < s.len() - 1 {
        assert(u.drop_last() =~= s.drop_last().update(i, e));
        lemma_sum_counts_update(s.drop_last(), i, e);
    } else {
        assert(u.drop_last() =~= s.drop_last());
    }
}

proof fn lemma_count_le_sum(s: Seq<Visit>, i: int)
    requires
        0 <= i < s.len(),
    ensures
        s[i].1 <= sum_counts(s),
    decreases s.len(),
{
    if i < s.len() - 1 {
        assert(s.drop_last()[i] == s[i]);
        lemma_count_le_sum(s.drop_last(), i);
    }
}

proof fn lemma_without_count(s: Seq<Visit>, count: nat)
    requires
        distinct_points(s),
        all_visited(s),
    ensures
        distinct_points(without_count(s, count)),
        all_visited(without_count(s, count)),
        sum_counts(without_count(s, count)) <= sum_counts(s),
        forall|j: int|
            0 <= j < without_count(s, count).len() ==> exists|i: int|
                0 <= i < s.len() && s[i] == #[trigger] without_count(s, count)[j],
        forall|p: Point|
            #[trigger] count_in(without_count(s, count), p) == if count_in(s, p) == count {
                0
            } else {
                count_in(s, p)
            },
    decreases s.len(),
{
    if s.len() > 0 {
        let d = s.drop_last();
        let e = s.last();
        assert(distinct_points(d));
        assert(all_visited(d));
        lemma_without_count(d, count);
        let w = without_count(d, count);
        assert forall|j: int| 0 <= j < d.len() implies d[j].0 != e.0 by {
            assert(s[j] == d[j]);
        }
        lemma_count_absent(d, e.0);
        if e.1 != count {
            let r = w.push(e);
            assert(r.drop_last() =~= w);
            assert forall|j: int| 0 <= j < w.len() implies w[j].0 != e.0 by {
                let i = choose|i: int| 0 <= i < d.len() && d[i] == w[j];
                assert(s[i] == d[i]);
            }
            assert forall|j: int| 0 <= j < r.len() implies exists|i: int|
                0 <= i < s.len() && s[i] == #[trigger] r[j] by {
                if j < w.len() {
                    let i = choose|i: int| 0 <= i < d.len() && d[i] == w[j];
                    assert(s[i] == d[i]);
                } else {
                    assert(s[s.len() - 1] == r[j]);
                }
            }
            assert forall|p: Point| #[trigger]
                count_in(r, p) == if count_in(s, p) == count {
                    0
                } else {
                    count_in(s, p)
                } by {
                assert(count_in(w, p) == if count_in(d, p) == count {
                    0
                } else {
                    count_in(d, p)
                });
            }
        } else {
            assert forall|j: int| 0 <= j < w.len() implies exists|i: int|
                0 <= i < s.len() && s[i] == #[trigger] w[j] by {
                let i = choose|i: int| 0 <= i < d.len() && d[i] == w[j];
                assert(s[i] == d[i]);
            }
            assert forall|p: Point| #[trigger]
                count_in(w, p) == if count_in(s, p) == count {
                    0
                } else {
                    count_in(s, p)
                } by {
                assert(count_in(w, p) == if count_in(d, p) == count {
                    0
                } else {
                    count_in(d, p)
                });
            }
        }
    }
}

/// Counts one more visit of `p` in `entries`.
fn count_visit(entries: &mut Vec<Visit>, p: Point)
    requires
        distinct_points(old(entries)@),
        all_visited(old(entries)@),
        sum_counts(old(entries)@) < usize::MAX,
    ensures
        distinct_points(final(entries)@),
        all_visited(final(entries)@),
        sum_counts(final(entries)@) == sum_counts(old(entries)@) + 1,
        forall|q: Point|
            #[trigger] count_in(final(entries)@, q) == count_in(old(entries)@, q) + if q == p {
                1nat
            } else {
                0nat
            },
{
    let ghost s = entries@;
    let mut i: usize = 0;
    while i < entries.len()
        invariant
            i <= s.len(),
            entries@ == s,
            s == old(entries)@,
            distinct_points(s),
            all_visited(s),
            sum_counts(s) < usize::MAX,
            forall|j: int| 0 <= j < i ==> s[j].0 != p,
        decreases entries.len() - i,
    {
        if entries[i].0 == p {
            let n = entries[i].1;
            proof {
                lemma_count_le_sum(s, i as int);
                lemma_count_at(s, i as int);
            }
            entries.set(i, (p, n + 1));
            proof {
                let u = entries@;
                assert(u == s.update(i as int, (p, (n + 1) as usize)));
                lemma_sum_counts_update(s, i as int, (p, (n + 1) as usize));
                assert(distinct_points(u));
                assert forall|q: Point| #[trigger] count_in(u, q) == count_in(s, q) + if q == p {
                    1nat
                } else {
                    0nat
                } by {
                    if q == p {
                        lemma_count_at(u, i as int);
                    } else if exists|j: int| 0 <= j < s.len() && s[j].0 == q {
                        let j = choose|j: int| 0 <= j < s.len() && s[j].0 == q;
                        lemma_count_at(s, j);
                        lemma_count_at(u, j);
                    } else {
                        lemma_count_absent(s, q);
                        lemma_count_absent(u, q);
                    }
                }
            }
            return;
        }
        i = i + 1;
    }
    proof {
        lemma_count_absent(s, p);
    }
    entries.push((p, 1));
    proof {
        assert(entries@.drop_last() =~= s);
    }
}

/// The summary of a trace of points: how many times each point was visited and, in a graph,
/// how many times each directed step between consecutive points was taken.
///
/// Points are fed in batches; within a batch each point is linked to the one before it, and
/// the first point of a batch is not linked to the last point of the batch before.
#[derive(Clone)]
pub struct PointPlane {
    points: Vec<Visit>,
    graph: Graph,
    capacity: usize,
    ingested: usize,
    seen: Ghost<Set<Point>>,
}

impl PointPlane {
    /// The internal consistency of a plane: one entry per visited point and one edge per
    /// ordered pair, every count and weight at least one, the counts and weights bounded by
    /// the number of points fed in, and every counted point among those fed in.
    pub closed spec fn wf(&self) -> bool {
        &&& distinct_points(self.points@)
        &&& all_visited(self.points@)
        &&& self.graph.wf()
        &&& sum_counts(self.points@) <= self.ingested
        &&& self.graph.total_weight() <= self.ingested
        &&& forall|i: int|
            0 <= i < self.points@.len() ==> self.seen@.contains(#[trigger] self.points@[i].0)
        &&& forall|a: Point, b: Point|
            #[trigger] self.graph.edge_weight(a, b) > 0 ==> self.seen@.contains(a)
                && self.seen@.contains(b)
    }

    /// How many times `p` was visited, counting from the last `retain` that removed it.
    pub closed spec fn frequency_of(&self, p: Point) -> nat {
        count_in(self.points@, p)
    }

    /// The visited points with their visit counts.
    pub open spec fn frequencies(&self) -> Map<Point, nat> {
        Map::new(|p: Point| self.frequency_of(p) > 0, |p: Point| self.frequency_of(p))
    }

    /// The graph of steps taken.
    pub closed spec fn graph(&self) -> Graph {
        self.graph
    }

    /// How many times the step `a -> b` was taken.
    pub open spec fn edge_weight(&self, a: Point, b: Point) -> nat {
        self.graph().edge_weight(a, b)
    }

    /// The weights of the steps into or out of `p`, added up.
    pub open spec fn weight_of(&self, p: Point) -> nat {
        self.graph().touching_weight(p)
    }

    /// The visit counts, added up.
    pub closed spec fn total_frequency(&self) -> nat {
        sum_counts(self.points@)
    }

    /// Every point ever fed in, whether or not a `retain` removed it since.
    pub closed spec fn seen(&self) -> Set<Point> {
        self.seen@
    }

    /// The number of points fed in so far, over all batches.
    pub closed spec fn ingested(&self) -> nat {
        self.ingested as nat
    }

    /// The nominal capacity the plane was made with.
    pub closed spec fn capacity(&self) -> nat {
        self.capacity as nat
    }

    /// What feeding the batch `points` into `before` gives `after`: each point of the batch
    /// counts one visit, each pair of consecutive points of the batch one step, and nothing
    /// else changes.
    pub open spec fn batch_recorded(before: PointPlane, after: PointPlane, points: Seq<Point>) -> bool {
        &&& after.wf()
        &&& forall|p: Point|
            #[trigger] after.frequency_of(p) == before.frequency_of(p) + occurrences(points, p)
        &&& forall|a: Point, b: Point|
            #[trigger] after.edge_weight(a, b) == before.edge_weight(a, b) + transitions(
                points,
                a,
                b,
            )
        &&& forall|p: Point|
            #[trigger] after.weight_of(p) == before.weight_of(p) + touching_steps(points, p)
        &&& after.total_frequency() == before.total_frequency() + points.len()
        &&& after.ingested() == before.ingested() + points.len()
        &&& forall|p: Point|
            #[trigger] after.seen().contains(p) <==> before.seen().contains(p) || points.contains(
                p,
            )
        &&& after.capacity() == before.capacity()
    }

    /// What a plane made from the single batch `points` holds: each point counts its
    /// occurrences, each step `a -> b` the times `b` directly follows `a`, and each point the
    /// steps it is an end of.
    pub open spec fn built_from(plane: PointPlane, points: Seq<Point>) -> bool {
        &&& plane.wf()
        &&& forall|p: Point| #[trigger] plane.frequency_of(p) == occurrences(points, p)
        &&& forall|a: Point, b: Point| #[trigger] plane.edge_weight(a, b) == transitions(points, a, b)
        &&& forall|p: Point| #[trigger] plane.weight_of(p) == touching_steps(points, p)
        &&& plane.total_frequency() == points.len()
        &&& plane.ingested() == points.len()
        &&& forall|p: Point| #[trigger] plane.seen().contains(p) <==> points.contains(p)
    }

    /// Feeds one batch of points in.
    fn ingest(&mut self, points: &Vec<Point>)
        requires
            old(self).wf(),
            old(self).ingested() + points@.len() <= usize::MAX,
        ensures
            Self::batch_recorded(*old(self), *final(self), points@),
    {
        let ghost before = *self;
        let ghost s = points@;
        let mut k: usize = 0;
        while k < points.len()
            invariant
                k <= s.len(),
                s == points@,
                before == *old(self),
                before.ingested() + s.len() <= usize::MAX,
                self.wf(),
                self.ingested() == before.ingested() + k,
                self.total_frequency() == before.total_frequency() + k,
                self.capacity() == before.capacity(),
                forall|p: Point|
                    #[trigger] self.frequency_of(p) == before.frequency_of(p) + occurrences(
                        s.take(k as int),
                        p,
                    ),
                forall|a: Point, b: Point|
                    #[trigger] self.edge_weight(a, b) == before.edge_weight(a, b) + transitions(
                        s.take(k as int),
                        a,
                        b,
                    ),
                forall|p: Point|
                    #[trigger] self.weight_of(p) == before.weight_of(p) + touching_steps(
                        s.take(k as int),
                        p,
                    ),
                forall|p: Point|
                    #[trigger] self.seen().contains(p) <==> before.seen().contains(p) || s.take(
                        k as int,
                    ).contains(p),
                k > 0 ==> self.seen().contains(s[k - 1]),
            decreases s.len() - k,
        {
            let ghost self0 = *self;
            let ghost k0 = k as int;
            let p = points[k];
            let ghost t0 = s.take(k as int);
            let ghost t1 = s.take(k + 1);
            proof {
                assert(t1.drop_last() =~= t0);
                assert(t1.last() == p);
                assert forall|q: Point| t1.contains(q) <==> t0.contains(q) || q == p by {
                    if t0.contains(q) {
                        let j = choose|j: int| 0 <= j < t0.len() && t0[j] == q;
                        assert(t1[j] == q);
                    }
                    if t1.contains(q) && q != p {
                        let j = choose|j: int| 0 <= j < t1.len() && t1[j] == q;
                        assert(t0[j] == q);
                    }
                    if q == p {
                        assert(t1[k as int] == q);
                    }
                }
            }
            self.seen = Ghost(self.seen@.insert(p));
            let ghost pts0 = self.points@;
            count_visit(&mut self.points, p);
            if k > 0 {
                let prev = points[k - 1];
                proof {
                    assert(t1[t1.len() - 2] == prev);
                    lemma_edge_weight_bounded(self.graph, prev, p);
                }
                self.graph.push(&Connection::new(prev, p));
            }
            self.ingested = self.ingested + 1;
            k = k + 1;
            proof {
                assert forall|q: Point| #[trigger] self.frequency_of(q) == before.frequency_of(q)
                    + occurrences(t1, q) by {
                    assert(count_in(self.points@, q) == count_in(pts0, q) + if q == p {
                        1nat
                    } else {
                        0nat
                    });
                    assert(self0.frequency_of(q) == before.frequency_of(q) + occurrences(t0, q));
                    assert(occurrences(t1, q) == occurrences(t0, q) + if q == p {
                        1nat
                    } else {
                        0nat
                    });
                }
                assert forall|a: Point, b: Point| #[trigger] self.edge_weight(a, b)
                    == before.edge_weight(a, b) + transitions(t1, a, b) by {
                    assert(self0.edge_weight(a, b) == before.edge_weight(a, b) + transitions(t0, a, b));
                    if k0 > 0 {
                        assert(transitions(t1, a, b) == transitions(t0, a, b) + if t1[k0 - 1] == a
                            && p == b {
                            1nat
                        } else {
                            0nat
                        });
                    }
                }
                assert forall|q: Point| #[trigger] self.weight_of(q) == before.weight_of(q)
                    + touching_steps(t1, q) by {
                    assert(self0.weight_of(q) == before.weight_of(q) + touching_steps(t0, q));
                    if k0 > 0 {
                        assert(touching_steps(t1, q) == touching_steps(t0, q) + if t1[k0 - 1] == q
                            || p == q {
                            1nat
                        } else {
                            0nat
                        });
                    }
                }
                assert forall|q: Point| #[trigger] self.seen().contains(q) <==> before.seen().contains(q)
                    || t1.contains(q) by {
                    assert(self0.seen().contains(q) <==> before.seen().contains(q) || t0.contains(q));
                    assert(t1.contains(q) <==> t0.contains(q) || q == p);
                }
                assert forall|i: int| 0 <= i < self.points@.len() implies self.seen@.contains(
                    #[trigger] self.points@[i].0,
                ) by {
                    let q = self.points@[i].0;
                    lemma_count_at(self.points@, i);
                    if q != p {
                        if !self.seen@.contains(q) {
                            assert forall|j: int| 0 <= j < pts0.len() implies pts0[j].0 != q by {}
                            lemma_count_absent(pts0, q);
                        }
                    }
                }
            }
        }
        proof {
            assert(s.take(k as int) =~= s);
        }
    }

    /// A plane fed with the batch `points`; `capacity` is kept as the plane's nominal
    /// capacity.
    pub fn new(points: Vec<Point>, capacity: usize) -> (r: PointPlane)
        requires
            points@.len() > 0,
        ensures
            Self::built_from(r, points@),
            r.capacity() == capacity,
    {
        let mut plane = PointPlane {
            points: Vec::new(),
            graph: Graph::new(),
            capacity,
            ingested: 0,
            seen: Ghost(Set::empty()),
        };
        proof {
            assert forall|p: Point| #[trigger] plane.frequency_of(p) == 0 by {}
            assert forall|a: Point, b: Point| #[trigger] plane.edge_weight(a, b) == 0 by {}
            assert forall|p: Point| #[trigger] plane.weight_of(p) == 0 by {}
        }
        let batch_len = points.len();
        assert(plane.ingested() + batch_len <= usize::MAX);
        plane.ingest(&points);
        plane
    }

    /// Feeds the batch `points` in, after the batches before it. Its first point is not
    /// linked to the last point of the batch before.
    pub fn push(&mut self, points: Vec<Point>)
        requires
            old(self).wf(),
            points@.len() > 0,
            old(self).ingested() + points@.len() <= usize::MAX,
        ensures
            Self::batch_recorded(*old(self), *final(self), points@),
    {
        self.ingest(&points);
    }

    /// Removes every point visited exactly `frequency` times and every step taken exactly
    /// `frequency` times; all other counts and weights stay as they are.
    pub fn retain(&mut self, frequency: usize)
        requires
            old(self).wf(),
        ensures
            final(self).wf(),
            forall|p: Point|
                #[trigger] final(self).frequency_of(p) == if old(self).frequency_of(p)
                    == frequency {
                    0
                } else {
                    old(self).frequency_of(p)
                },
            forall|a: Point, b: Point|
                #[trigger] final(self).edge_weight(a, b) == if old(self).edge_weight(a, b)
                    == frequency {
                    0
                } else {
                    old(self).edge_weight(a, b)
                },
            forall|p: Point| #[trigger] final(self).weight_of(p) <= old(self).weight_of(p),
            forall|p: Point|
                (forall|b: Point|
                    (old(self).edge_weight(p, b) > 0 ==> old(self).edge_weight(p, b) != frequency)
                        && (old(self).edge_weight(b, p) > 0 ==> old(self).edge_weight(b, p)
                        != frequency)) ==> #[trigger] final(self).weight_of(p) == old(
                    self,
                ).weight_of(p),
            final(self).seen() == old(self).seen(),
            final(self).ingested() == old(self).ingested(),
            final(self).capacity() == old(self).capacity(),
    {
        let ghost pp0 = *self;
        let ghost s = self.points@;
        let mut kept: Vec<Visit> = Vec::new();
        let mut i: usize = 0;
        while i < self.points.len()
            invariant
                i <= s.len(),
                s == self.points@,
                kept@ == without_count(s.take(i as int), frequency as nat),
            decreases self.points.len() - i,
        {
            let e = self.points[i];
            proof {
                assert(s.take(i + 1).drop_last() =~= s.take(i as int));
                assert(s.take(i + 1).last() == e);
            }
            if e.1 != frequency {
                kept.push(e);
            }
            i = i + 1;
        }
        proof {
            assert(s.take(i as int) =~= s);
            lemma_without_count(s, frequency as nat);
        }
        self.points = kept;
        let ghost g0 = self.graph;
        self.graph.retain(frequency);
        proof {
            assert forall|p: Point|
                (forall|b: Point|
                    (pp0.edge_weight(p, b) > 0 ==> pp0.edge_weight(p, b) != frequency) && (
                    pp0.edge_weight(b, p) > 0 ==> pp0.edge_weight(b, p) != frequency)) implies #[trigger] self.weight_of(p)
                == pp0.weight_of(p) by {
                assert forall|b: Point|
                    (g0.edge_weight(p, b) > 0 ==> g0.edge_weight(p, b) != frequency) && (
                    g0.edge_weight(b, p) > 0 ==> g0.edge_weight(b, p) != frequency) by {
                    assert(pp0.edge_weight(p, b) == g0.edge_weight(p, b));
                    assert(pp0.edge_weight(b, p) == g0.edge_weight(b, p));
                }
            }
            assert forall|j: int| 0 <= j < self.points@.len() implies self.seen@.contains(
                #[trigger] self.points@[j].0,
            ) by {
                let i = choose|i: int| 0 <= i < s.len() && s[i] == self.points@[j];
            }
        }
    }

    /// How many times `point` was visited (0 if never, or if a `retain` removed it).
    pub fn get_point_frequency(&self, point: &Point) -> (r: usize)
        requires
            self.wf(),
        ensures
            r == self.frequency_of(*point),
    {
        let ghost s = self.points@;
        let mut i: usize = 0;
        while i < self.points.len()
            invariant
                i <= s.len(),
                s == self.points@,
                distinct_points(s),
                forall|j: int| 0 <= j < i ==> s[j].0 != *point,
            decreases self.points.len() - i,
        {
            if self.points[i].0 == *point {
                proof {
                    lemma_count_at(s, i as int);
                }
                return self.points[i].1;
            }
            i = i + 1;
        }
        proof {
            lemma_count_absent(s, *point);
        }
        0
    }

    /// The weights of the steps into or out of `point`, added up; a step from `point` to
    /// itself counts once.
    pub fn get_point_weight(&self, point: &Point) -> (r: usize)
        requires
            self.wf(),
        ensures
            r == self.weight_of(*point),
    {
        self.graph.point_weight(point)
    }

    /// The visited points with their visit counts, one entry per point.
    pub fn get_points(&self) -> (r: &Vec<Visit>)
        requires
            self.wf(),
        ensures
            distinct_points(r@),
            all_visited(r@),
            forall|p: Point| #[trigger] count_in(r@, p) == self.frequency_of(p),
            sum_counts(r@) == self.total_frequency(),
    {
        &self.points
    }

    /// The graph of the steps taken.
    pub fn get_graph(&self) -> (r: &Graph)
        requires
            self.wf(),
        ensures
            *r == self.graph(),
            r.wf(),
            r.total_weight() <= usize::MAX,
    {
        &self.graph
    }

    /// The nominal capacity the plane was made with.
    pub fn get_capacity(&self) -> (r: usize)
        ensures
            r == self.capacity(),
    {
        self.capacity
    }

    /// The number of points fed in so far, over all batches.
    pub fn get_ingested(&self) -> (r: usize)
        ensures
            r == self.ingested(),
    {
        self.ingested
    }
}

proof fn lemma_transitions_from_absent(points: Seq<Point>, a: Point, b: Point)
    requires
        !points.contains(a),
    ensures
        transitions(points, a, b) == 0,
    decreases points.len(),
{
    if points.len() >= 2 {
        let d = points.drop_last();
        assert(d[d.len() - 1] == points[points.len() - 2]);
        assert(!d.contains(a)) by {
            if d.contains(a) {
                let j = choose|j: int| 0 <= j < d.len() && d[j] == a;
                assert(points[j] == a);
            }
        }
        lemma_transitions_from_absent(d, a, b);
    }
}

/// A point that was never fed in has no visits and no weight.
pub proof fn lemma_unseen_point(plane: PointPlane, p: Point)
    requires
        plane.wf(),
        !plane.seen().contains(p),
    ensures
        plane.frequency_of(p) == 0,
        plane.weight_of(p) == 0,
{
    let s = plane.points@;
    assert forall|i: int| 0 <= i < s.len() implies s[i].0 != p by {
        assert(plane.seen@.contains(s[i].0));
    }
    lemma_count_absent(s, p);
    assert forall|b: Point| plane.graph.edge_weight(p, b) == 0 && plane.graph.edge_weight(b, p)
        == 0 by {
        if plane.graph.edge_weight(p, b) > 0 {
            assert(plane.seen@.contains(p));
        }
        if plane.graph.edge_weight(b, p) > 0 {
            assert(plane.seen@.contains(p));
        }
    }
    lemma_touching_weight(plane.graph, p);
}

/// Feeding a batch adds no step out of a point that the batch does not hold: in particular
/// the last point of an earlier batch is not linked to the first point of the batch.
pub proof fn lemma_no_step_across_batches(
    before: PointPlane,
    after: PointPlane,
    batch: Seq<Point>,
    last: Point,
)
    requires
        PointPlane::batch_recorded(before, after, batch),
        batch.len() > 0,
        !batch.contains(last),
    ensures
        after.edge_weight(last, batch[0]) == before.edge_weight(last, batch[0]),
        forall|b: Point| #[trigger] after.edge_weight(last, b) == before.edge_weight(last, b),
{
    assert forall|b: Point| #[trigger] after.edge_weight(last, b) == before.edge_weight(last, b) by {
        lemma_transitions_from_absent(batch, last, b);
    }
}

proof fn lemma_touching_steps_bound(points: Seq<Point>, p: Point)
    ensures
        touching_steps(points, p) + (if points.len() > 0 && points.last() == p {
            1nat
        } else {
            0nat
        }) <= 2 * occurrences(points, p),
    decreases points.len(),
{
    if points.len() > 0 {
        let d = points.drop_last();
        lemma_touching_steps_bound(d, p);
        if points.len() >= 2 {
            assert(d.last() == points[points.len() - 2]);
        }
    }
}

/// In a plane made from one batch, a point is an end of at most two steps per visit: the
/// one into it and the one out of it.
pub proof fn lemma_weight_at_most_twice_frequency(plane: PointPlane, points: Seq<Point>, p: Point)
    requires
        PointPlane::built_from(plane, points),
    ensures
        plane.weight_of(p) <= 2 * plane.frequency_of(p),
{
    lemma_touching_steps_bound(points, p);
}

/// Feeding a batch keeps a point's weight within twice its visit count.
pub proof fn lemma_weight_bound_kept(
    before: PointPlane,
    after: PointPlane,
    batch: Seq<Point>,
    p: Point,
)
    requires
        PointPlane::batch_recorded(before, after, batch),
        before.weight_of(p) <= 2 * before.frequency_of(p),
    ensures
        after.weight_of(p) <= 2 * after.frequency_of(p),
{
    lemma_touching_steps_bound(batch, p);
}

proof fn lemma_occurrences_concat(s1: Seq<Point>, s2: Seq<Point>, p: Point)
    ensures
        occurrences(s1 + s2, p) == occurrences(s1, p) + occurrences(s2, p),
    decreases s2.len(),
{
    if s2.len() == 0 {
        assert(s1 + s2 =~= s1);
    } else {
        assert((s1 + s2).drop_last() =~= s1 + s2.drop_last());
        lemma_occurrences_concat(s1, s2.drop_last(), p);
    }
}

proof fn lemma_transitions_concat(s1: Seq<Point>, s2: Seq<Point>, a: Point, b: Point)
    requires
        s1.len() > 0,
        s2.len() > 0,
    ensures
        transitions(s1 + s2, a, b) == transitions(s1, a, b) + transitions(s2, a, b) + if s1.last()
            == a && s2[0] == b {
            1nat
        } else {
            0nat
        },
    decreases s2.len(),
{
    let j = s1 + s2;
    assert(j.drop_last() =~= s1 + s2.drop_last());
    if s2.len() == 1 {
        assert(s1 + s2.drop_last() =~= s1);
        assert(j[j.len() - 2] == s1.last());
    } else {
        lemma_transitions_concat(s1, s2.drop_last(), a, b);
        assert(j[j.len() - 2] == s2[s2.len() - 2]);
        assert(s2.drop_last()[0] == s2[0]);
    }
}

/// Feeding two batches one after the other gives the plane made from the two joined into
/// one batch, except for the single step from the last point of the first batch to the first
/// point of the second, which only the joined batch holds.
pub proof fn lemma_batches_join(
    first: PointPlane,
    both: PointPlane,
    joined: PointPlane,
    s1: Seq<Point>,
    s2: Seq<Point>,
)
    requires
        s1.len() > 0,
        s2.len() > 0,
        PointPlane::built_from(first, s1),
        PointPlane::batch_recorded(first, both, s2),
        PointPlane::built_from(joined, s1 + s2),
    ensures
        forall|p: Point| #[trigger] both.frequency_of(p) == joined.frequency_of(p),
        forall|a: Point, b: Point|
            #[trigger] both.edge_weight(a, b) + (if a == s1.last() && b == s2[0] {
                1nat
            } else {
                0nat
            }) == joined.edge_weight(a, b),
{
    assert forall|p: Point| #[trigger] both.frequency_of(p) == joined.frequency_of(p) by {
        lemma_occurrences_concat(s1, s2, p);
    }
    assert forall|a: Point, b: Point|
        #[trigger] both.edge_weight(a, b) + (if a == s1.last() && b == s2[0] {
            1nat
        } else {
            0nat
        }) == joined.edge_weight(a, b) by {
        lemma_transitions_concat(s1, s2, a, b);
    }
}

} // verus!
