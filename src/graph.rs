//! The directed graph of observed steps: one weighted edge per ordered pair of points.

use crate::connection::Connection;
use crate::point::Point;
use vstd::prelude::*;

verus! {

/// An edge as a plain value: source, destination and weight.
pub type Edge = (Point, Point, nat);

/// The weight of `from -> to` in `s`, or 0 where `s` has no such edge.
pub open spec fn weight_in(s: Seq<Edge>, from: Point, to: Point) -> nat
    decreases s.len(),
{
    if s.len() == 0 {
        0
    } else if s.last().0 == from && s.last().1 == to {
        s.last().2
    } else {
        weight_in(s.drop_last(), from, to)
    }
}

/// No two edges of `s` join the same ordered pair of points.
pub open spec fn distinct_edges(s: Seq<Edge>) -> bool {
    forall|i: int, j: int|
        0 <= i < s.len() && 0 <= j < s.len() && i != j ==> !(s[i].0 == s[j].0 && s[i].1
            == s[j].1)
}

/// Every edge of `s` was taken at least once.
pub open spec fn all_taken(s: Seq<Edge>) -> bool {
    forall|i: int| 0 <= i < s.len() ==> s[i].2 >= 1
}

/// The sum of the weights of the edges of `s`.
pub open spec fn sum_weights(s: Seq<Edge>) -> nat
    decreases s.len(),
{
    if s.len() == 0 {
        0
    } else {
        sum_weights(s.drop_last()) + s.last().2
    }
}

/// The sum of the weights of the edges of `s` that start or end at `p`; an edge from `p` to
/// itself counts once.
pub open spec fn sum_touching(s: Seq<Edge>, p: Point) -> nat
    decreases s.len(),
{
    if s.len() == 0 {
        0
    } else {
        sum_touching(s.drop_last(), p) + if s.last().0 == p || s.last().1 == p {
            s.last().2
        } else {
            0
        }
    }
}

/// The edges of `s` whose weight is not `weight`, in their order.
pub open spec fn without_weight(s: Seq<Edge>, weight: nat) -> Seq<Edge>
    decreases s.len(),
{
    if s.len() == 0 {
        s
    } else if s.last().2 == weight {
        without_weight(s.drop_last(), weight)
    } else {
        without_weight(s.drop_last(), weight).push(s.last())
    }
}

proof fn lemma_weight_at(s: Seq<Edge>, i: int)
    requires
        distinct_edges(s),
        0 <= i < s.len(),
    ensures
        weight_in(s, s[i].0, s[i].1) == s[i].2,
    decreases s.len(),
{
    if i < s.len() - 1 {
        assert(s.drop_last()[i] == s[i]);
        assert(distinct_edges(s.drop_last()));
        lemma_weight_at(s.drop_last(), i);
    }
}

proof fn lemma_weight_absent(s: Seq<Edge>, from: Point, to: Point)
    requires
        forall|i: int| 0 <= i < s.len() ==> !(s[i].0 == from && s[i].1 == to),
    ensures
        weight_in(s, from, to) == 0,
    decreases s.len(),
{
    if s.len() > 0 {
        lemma_weight_absent(s.drop_last(), from, to);
    }
}

proof fn lemma_sums_update(s: Seq<Edge>, i: int, e: Edge, p: Point)
    requires
        0 <= i < s.len(),
    ensures
        sum_weights(s.update(i, e)) == sum_weights(s) - s[i].2 + e.2,
        sum_touching(s.update(i, e), p) == sum_touching(s, p) - (if s[i].0 == p || s[i].1 == p {
            s[i].2
        } else {
            0
        }) + (if e.0 == p || e.1 == p {
            e.2
        } else {
            0
        }),
    decreases s.len(),
{
    let u = s.update(i, e);
    if i < s.len() - 1 {
        assert(u.drop_last() =~= s.drop_last().update(i, e));
        lemma_sums_update(s.drop_last(), i, e, p);
    } else {
        assert(u.drop_last() =~= s.drop_last());
    }
}

proof fn lemma_touching_le_total(s: Seq<Edge>, p: Point)
    ensures
        sum_touching(s, p) <= sum_weights(s),
    decreases s.len(),
{
    if s.len() > 0 {
        lemma_touching_le_total(s.drop_last(), p);
    }
}

proof fn lemma_weight_le_total(s: Seq<Edge>, i: int)
    requires
        0 <= i < s.len(),
    ensures
        s[i].2 <= sum_weights(s),
    decreases s.len(),
{
    if i < s.len() - 1 {
        assert(s.drop_last()[i] == s[i]);
        lemma_weight_le_total(s.drop_last(), i);
    }
}

proof fn lemma_without_weight(s: Seq<Edge>, weight: nat)
    requires
        distinct_edges(s),
        all_taken(s),
    ensures
        distinct_edges(without_weight(s, weight)),
        all_taken(without_weight(s, weight)),
        sum_weights(without_weight(s, weight)) <= sum_weights(s),
        forall|j: int|
            0 <= j < without_weight(s, weight).len() ==> exists|i: int|
                0 <= i < s.len() && s[i] == #[trigger] without_weight(s, weight)[j],
        forall|a: Point, b: Point|
            #[trigger] weight_in(without_weight(s, weight), a, b) == if weight_in(s, a, b)
                == weight {
                0
            } else {
                weight_in(s, a, b)
            },
    decreases s.len(),
{
    if s.len() > 0 {
        let d = s.drop_last();
        let e = s.last();
        assert(distinct_edges(d));
        assert(all_taken(d));
        lemma_without_weight(d, weight);
        let w = without_weight(d, weight);
        assert forall|j: int| 0 <= j < d.len() implies !(d[j].0 == e.0 && d[j].1 == e.1) by {
            assert(s[j] == d[j]);
        }
        lemma_weight_absent(d, e.0, e.1);
        if e.2 != weight {
            let r = w.push(e);
            assert(r.drop_last() =~= w);
            assert forall|j: int| 0 <= j < w.len() implies !(w[j].0 == e.0 && w[j].1 == e.1) by {
                let i = choose|i: int| 0 <= i < d.len() && d[i] == w[j];
                assert(s[i] == d[i]);
            }
            assert forall|j: int| 0 <= j < r.len() implies exists|i: int|
                0 <= i < s.len() && s[i] == #[trigger] r[j] by {
                if j < w.len() {
                    let i = choose|i: int| 0 <= i < d.len() && d[i] == w[j];
                    assert(s[i] == d[i]);
                } else {
                    assert(s[s.len() - 1] == r[j]);
                }
            }
            assert forall|a: Point, b: Point| #[trigger]
                weight_in(r, a, b) == if weight_in(s, a, b) == weight {
                    0
                } else {
                    weight_in(s, a, b)
                } by {
                assert(weight_in(w, a, b) == if weight_in(d, a, b) == weight {
                    0
                } else {
                    weight_in(d, a, b)
                });
            }
        } else {
            assert forall|j: int| 0 <= j < w.len() implies exists|i: int|
                0 <= i < s.len() && s[i] == #[trigger] w[j] by {
                let i = choose|i: int| 0 <= i < d.len() && d[i] == w[j];
                assert(s[i] == d[i]);
            }
            assert forall|a: Point, b: Point| #[trigger]
                weight_in(w, a, b) == if weight_in(s, a, b) == weight {
                    0
                } else {
                    weight_in(s, a, b)
                } by {
                assert(weight_in(w, a, b) == if weight_in(d, a, b) == weight {
                    0
                } else {
                    weight_in(d, a, b)
                });
            }
        }
    }
}

/// The edges observed so far, at most one for each ordered pair of points.
#[derive(Clone, Debug)]
pub struct Graph(Vec<Connection>);

impl View for Graph {
    type V = Seq<Edge>;

    closed spec fn view(&self) -> Seq<Edge> {
        self.0@.map_values(|c: Connection| c@)
    }
}

impl Graph {
    /// Each ordered pair of points has at most one edge, and each edge was taken.
    pub open spec fn wf(&self) -> bool {
        distinct_edges(self@) && all_taken(self@)
    }

    /// The number of times the step `from -> to` was taken (0 if never).
    pub open spec fn edge_weight(&self, from: Point, to: Point) -> nat {
        weight_in(self@, from, to)
    }

    /// The edges as a map from ordered pairs of points to their weights.
    pub open spec fn edges(&self) -> Map<(Point, Point), nat> {
        Map::new(
            |k: (Point, Point)| self.edge_weight(k.0, k.1) > 0,
            |k: (Point, Point)| self.edge_weight(k.0, k.1),
        )
    }

    /// The weights of all edges, added up.
    pub open spec fn total_weight(&self) -> nat {
        sum_weights(self@)
    }

    /// The weights of the edges that start or end at `p`, added up.
    pub open spec fn touching_weight(&self, p: Point) -> nat {
        sum_touching(self@, p)
    }

    /// A graph without edges.
    pub fn new() -> (r: Graph)
        ensures
            r.wf(),
            r@ == Seq::<Edge>::empty(),
    {
        let r = Graph(Vec::new());
        assert(r@ =~= Seq::<Edge>::empty());
        r
    }

    /// The number of edges.
    pub fn len(&self) -> (r: usize)
        ensures
            r == self@.len(),
    {
        self.0.len()
    }

    /// The edge at position `i`.
    pub fn get(&self, i: usize) -> (r: Connection)
        requires
            i < self@.len(),
        ensures
            r@ == self@[i as int],
    {
        self.0[i]
    }

    fn find(&self, from: Point, to: Point) -> (r: Option<usize>)
        ensures
            match r {
                Some(i) => i < self@.len() && self@[i as int].0 == from && self@[i as int].1 == to,
                None => forall|i: int|
                    0 <= i < self@.len() ==> !(self@[i].0 == from && self@[i].1 == to),
            },
    {
        let mut i: usize = 0;
        while i < self.0.len()
            invariant
                i <= self@.len(),
                self@.len() == self.0@.len(),
                forall|j: int| 0 <= j < i ==> !(self@[j].0 == from && self@[j].1 == to),
            decreases self.0.len() - i,
        {
            let c = self.0[i];
            if c.from() == from && c.to() == to {
                return Some(i);
            }
            i = i + 1;
        }
        None
    }

    /// The number of times the step `from -> to` was taken (0 if never).
    pub fn weight(&self, from: Point, to: Point) -> (r: usize)
        requires
            self.wf(),
        ensures
            r == self.edge_weight(from, to),
    {
        match self.find(from, to) {
            Some(i) => {
                proof {
                    lemma_weight_at(self@, i as int);
                }
                self.0[i].weight()
            },
            None => {
                proof {
                    lemma_weight_absent(self@, from, to);
                }
                0
            },
        }
    }

    /// Records one traversal of `connection`'s step: the edge with the same ends gains one,
    /// or, where there is none, the step is added with weight 1. The weight that
    /// `connection` carries plays no part.
    pub fn push(&mut self, connection: &Connection)
        requires
            old(self).wf(),
            old(self).edge_weight(connection@.0, connection@.1) < usize::MAX,
        ensures
            final(self).wf(),
            forall|a: Point, b: Point|
                #[trigger] final(self).edge_weight(a, b) == old(self).edge_weight(a, b) + if a
                    == connection@.0 && b == connection@.1 {
                    1nat
                } else {
                    0nat
                },
            final(self).total_weight() == old(self).total_weight() + 1,
            final(self)@.len() == old(self)@.len() + if old(self).edge_weight(
                connection@.0,
                connection@.1,
            ) == 0 {
                1nat
            } else {
                0nat
            },
            forall|p: Point|
                #[trigger] final(self).touching_weight(p) == old(self).touching_weight(p) + if
                    connection@.0 == p || connection@.1 == p {
                    1nat
                } else {
                    0nat
                },
    {
        let ghost s = self@;
        let from = connection.from();
        let to = connection.to();
        match self.find(from, to) {
            Some(i) => {
                let mut c = self.0[i];
                proof {
                    lemma_weight_at(s, i as int);
                }
                c.increment();
                self.0.set(i, c);
                proof {
                    let e = (from, to, s[i as int].2 + 1);
                    assert(self@ =~= s.update(i as int, e));
                    assert(distinct_edges(self@));
                    lemma_weight_at(self@, i as int);
                    assert forall|a: Point, b: Point|
                        #[trigger] weight_in(self@, a, b) == weight_in(s, a, b) + if a == from && b
                            == to {
                            1nat
                        } else {
                            0nat
                        } by {
                        if !(a == from && b == to) {
                            if exists|j: int| 0 <= j < s.len() && s[j].0 == a && s[j].1 == b {
                                let j = choose|j: int| 0 <= j < s.len() && s[j].0 == a && s[j].1 == b;
                                lemma_weight_at(s, j);
                                lemma_weight_at(self@, j);
                            } else {
                                lemma_weight_absent(s, a, b);
                                lemma_weight_absent(self@, a, b);
                            }
                        }
                    }
                    assert forall|p: Point| #[trigger] sum_touching(self@, p) == sum_touching(s, p) + if
                        from == p || to == p {
                        1nat
                    } else {
                        0nat
                    } by {
                        lemma_sums_update(s, i as int, e, p);
                    }
                    lemma_sums_update(s, i as int, e, from);
                }
            },
            None => {
                proof {
                    lemma_weight_absent(s, from, to);
                }
                let c = connection.first_traversal();
                self.0.push(c);
                proof {
                    let e = (from, to, 1nat);
                    assert(self@ =~= s.push(e));
                    assert(self@.drop_last() =~= s);
                }
            },
        }
    }

    /// Removes every edge whose weight is exactly `weight`; the others keep their weights.
    pub fn retain(&mut self, weight: usize)
        requires
            old(self).wf(),
        ensures
            final(self).wf(),
            forall|a: Point, b: Point|
                #[trigger] final(self).edge_weight(a, b) == if old(self).edge_weight(a, b)
                    == weight {
                    0
                } else {
                    old(self).edge_weight(a, b)
                },
            final(self).total_weight() <= old(self).total_weight(),
            forall|p: Point| #[trigger] final(self).touching_weight(p) <= old(self).touching_weight(p),
            forall|p: Point|
                (forall|b: Point|
                    (old(self).edge_weight(p, b) > 0 ==> old(self).edge_weight(p, b) != weight)
                        && (old(self).edge_weight(b, p) > 0 ==> old(self).edge_weight(b, p)
                        != weight)) ==> #[trigger] final(self).touching_weight(p) == old(
                    self,
                ).touching_weight(p),
    {
        let ghost s = self@;
        let ghost g0 = *self;
        let mut kept: Vec<Connection> = Vec::new();
        let mut i: usize = 0;
        while i < self.0.len()
            invariant
                i <= s.len(),
                s == self@,
                s.len() == self.0@.len(),
                kept@.map_values(|c: Connection| c@) == without_weight(s.take(i as int), weight as nat),
            decreases self.0.len() - i,
        {
            let c = self.0[i];
            proof {
                assert(s.take(i + 1).drop_last() =~= s.take(i as int));
                assert(s.take(i + 1).last() == c@);
            }
            if c.weight() != weight {
                kept.push(c);
            }
            i = i + 1;
            assert(kept@.map_values(|c: Connection| c@) =~= without_weight(s.take(i as int), weight as nat));
        }
        proof {
            assert(s.take(i as int) =~= s);
            lemma_without_weight(s, weight as nat);
        }
        self.0 = kept;
        proof {
            assert forall|p: Point|
                (forall|b: Point|
                    (g0.edge_weight(p, b) > 0 ==> g0.edge_weight(p, b) != weight) && (g0.edge_weight(
                        b,
                        p,
                    ) > 0 ==> g0.edge_weight(b, p) != weight)) implies #[trigger] self.touching_weight(
                p,
            ) == g0.touching_weight(p) by {
                assert forall|i: int| 0 <= i < s.len() && (s[i].0 == p || s[i].1 == p) implies s[i].2
                    != weight by {
                    lemma_weight_at(s, i);
                    if s[i].0 == p {
                        assert(g0.edge_weight(p, s[i].1) > 0);
                    } else {
                        assert(g0.edge_weight(s[i].0, p) > 0);
                    }
                }
                lemma_without_touching(s, weight as nat, p);
            }
            assert forall|p: Point| #[trigger] sum_touching(self@, p) <= sum_touching(s, p) by {
                lemma_without_touching(s, weight as nat, p);
            }
        }
    }

    /// The weights of the edges that start or end at `point`, added up; an edge from `point`
    /// to itself counts once.
    pub fn point_weight(&self, point: &Point) -> (r: usize)
        requires
            self.total_weight() <= usize::MAX,
        ensures
            r == self.touching_weight(*point),
    {
        let ghost s = self@;
        let mut sum: usize = 0;
        let mut i: usize = 0;
        while i < self.0.len()
            invariant
                i <= s.len(),
                s == self@,
                s.len() == self.0@.len(),
                sum_weights(s) <= usize::MAX,
                sum == sum_touching(s.take(i as int), *point),
            decreases self.0.len() - i,
        {
            let c = self.0[i];
            proof {
                assert(s.take(i + 1).drop_last() =~= s.take(i as int));
                assert(s.take(i + 1).last() == c@);
                lemma_touching_le_total(s.take(i + 1), *point);
                lemma_prefix_total(s, i + 1);
            }
            if c.matches(point) {
                sum = sum + c.weight();
            }
            i = i + 1;
        }
        proof {
            assert(s.take(i as int) =~= s);
        }
        sum
    }
}

proof fn lemma_prefix_total(s: Seq<Edge>, n: int)
    requires
        0 <= n <= s.len(),
    ensures
        sum_weights(s.take(n)) <= sum_weights(s),
    decreases s.len(),
{
    if n < s.len() {
        assert(s.drop_last().take(n) =~= s.take(n));
        lemma_prefix_total(s.drop_last(), n);
    } else {
        assert(s.take(n) =~= s);
    }
}

/// No edge outweighs all edges together.
pub proof fn lemma_edge_weight_bounded(g: Graph, from: Point, to: Point)
    requires
        g.wf(),
    ensures
        g.edge_weight(from, to) <= g.total_weight(),
{
    let s = g@;
    if exists|i: int| 0 <= i < s.len() && s[i].0 == from && s[i].1 == to {
        let i = choose|i: int| 0 <= i < s.len() && s[i].0 == from && s[i].1 == to;
        lemma_weight_at(s, i);
        lemma_weight_le_total(s, i);
    } else {
        lemma_weight_absent(s, from, to);
    }
}

/// A point at neither end of any edge has no weight, and no point outweighs the whole graph.
pub proof fn lemma_touching_weight(g: Graph, p: Point)
    requires
        g.wf(),
    ensures
        g.touching_weight(p) <= g.total_weight(),
        (forall|b: Point| g.edge_weight(p, b) == 0 && g.edge_weight(b, p) == 0) ==> g.touching_weight(p) == 0,
{
    lemma_touching_le_total(g@, p);
    if forall|b: Point| g.edge_weight(p, b) == 0 && g.edge_weight(b, p) == 0 {
        let s = g@;
        assert forall|i: int| 0 <= i < s.len() implies s[i].0 != p && s[i].1 != p by {
            lemma_weight_at(s, i);
            assert(g.edge_weight(s[i].0, s[i].1) >= 1);
        }
        lemma_untouched(s, p);
    }
}

proof fn lemma_untouched(s: Seq<Edge>, p: Point)
    requires
        forall|i: int| 0 <= i < s.len() ==> s[i].0 != p && s[i].1 != p,
    ensures
        sum_touching(s, p) == 0,
    decreases s.len(),
{
    if s.len() > 0 {
        lemma_untouched(s.drop_last(), p);
    }
}

proof fn lemma_without_touching(s: Seq<Edge>, weight: nat, p: Point)
    ensures
        sum_touching(without_weight(s, weight), p) <= sum_touching(s, p),
        (forall|i: int| 0 <= i < s.len() && (s[i].0 == p || s[i].1 == p) ==> s[i].2 != weight)
            ==> sum_touching(without_weight(s, weight), p) == sum_touching(s, p),
    decreases s.len(),
{
    if s.len() > 0 {
        let d = s.drop_last();
        lemma_without_touching(d, weight, p);
        if s.last().2 != weight {
            assert(without_weight(s, weight).drop_last() =~= without_weight(d, weight));
        }
        if forall|i: int| 0 <= i < s.len() && (s[i].0 == p || s[i].1 == p) ==> s[i].2 != weight {
            assert forall|i: int| 0 <= i < d.len() && (d[i].0 == p || d[i].1 == p) implies d[i].2
                != weight by {
                assert(s[i] == d[i]);
            }
        }
    }
}

} // verus!
