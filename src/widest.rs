//! Maximum-capacity-then-shortest routes: links are revealed in tiers of
//! equal capacity, highest first, and the first tier at which the
//! destination becomes reachable gives a shortest route over the links
//! revealed so far.

use vstd::prelude::*;
use crate::matrix::view2;
use crate::paths::{fits, is_route, is_walk, path_length, shortest_path};
use crate::topology::{Topology, MAX_CAPACITY};

verus! {

/// The smallest capacity entry among the links along `p`.
pub open spec fn bottleneck(c: Seq<Seq<i64>>, p: Seq<usize>) -> int
    decreases p.len(),
{
    if p.len() < 2 {
        0
    } else if p.len() == 2 {
        c[p[0] as int][p[1] as int] as int
    } else {
        let rest = bottleneck(c, p.drop_last());
        let last = c[p[p.len() - 2] as int][p.last() as int] as int;
        if rest <= last {
            rest
        } else {
            last
        }
    }
}

/// `p` is a route from `s` to `d` over links of capacity at least `floor`,
/// no such route has a larger bottleneck, and none with the same
/// bottleneck is shorter.
pub open spec fn is_widest_route(
    n: nat,
    dist: Seq<Seq<u64>>,
    c: Seq<Seq<i64>>,
    floor: int,
    p: Seq<usize>,
    s: int,
    d: int,
) -> bool {
    &&& is_route(n, c, floor, p, s, d)
    &&& forall|q: Seq<usize>| #[trigger] is_route(n, c, floor, q, s, d) ==> bottleneck(c, q) <= bottleneck(c, p)
    &&& forall|q: Seq<usize>|
        #[trigger] is_route(n, c, floor, q, s, d) && bottleneck(c, q) == bottleneck(c, p) ==> path_length(dist, p)
            <= path_length(dist, q)
}

/// The bottleneck of a sequence of at least two nodes is the capacity of
/// one of its links, and no link along it has less.
pub proof fn lemma_bottleneck_is_link(c: Seq<Seq<i64>>, p: Seq<usize>)
    requires
        p.len() >= 2,
    ensures
        exists|k: int| 0 <= k < p.len() - 1 && bottleneck(c, p) == c[p[k] as int][p[k + 1] as int],
        forall|k: int| #![trigger p[k]] 0 <= k < p.len() - 1 ==> bottleneck(c, p) <= c[p[k] as int][p[k + 1] as int],
    decreases p.len(),
{
    if p.len() == 2 {
        assert(bottleneck(c, p) == c[p[0] as int][p[1] as int]);
    } else {
        let r = p.drop_last();
        lemma_bottleneck_is_link(c, r);
        let kr = choose|k: int| 0 <= k < r.len() - 1 && bottleneck(c, r) == c[r[k] as int][r[k + 1] as int];
        assert(r[kr] == p[kr] && r[kr + 1] == p[kr + 1]);
        let last = p.len() - 2;
        assert forall|k: int| #![trigger p[k]] 0 <= k < p.len() - 1 implies bottleneck(c, p) <= c[p[k] as int][p[k + 1] as int] by {
            if k < last {
                assert(r[k] == p[k] && r[k + 1] == p[k + 1]);
            }
        }
    }
}

/// A sequence of at least two nodes below `n` is a walk over links of
/// capacity at least `thr` exactly when its bottleneck reaches `thr`.
pub proof fn lemma_walk_iff_bottleneck(n: nat, c: Seq<Seq<i64>>, thr: int, p: Seq<usize>)
    requires
        p.len() >= 2,
        forall|k: int| 0 <= k < p.len() ==> (#[trigger] p[k]) < n,
    ensures
        is_walk(n, c, thr, p) <==> bottleneck(c, p) >= thr,
{
    lemma_bottleneck_is_link(c, p);
    if is_walk(n, c, thr, p) {
        let k = choose|k: int| 0 <= k < p.len() - 1 && bottleneck(c, p) == c[p[k] as int][p[k + 1] as int];
        assert(p[k] == p[k]);
    }
    if bottleneck(c, p) >= thr {
        assert forall|k: int| #![trigger p[k]] 0 <= k < p.len() - 1 implies c[p[k] as int][p[k + 1] as int] >= thr by {
        }
    }
}

/// No entry of the `n` by `n` matrix `c` is positive: no link has capacity
/// to offer.
pub open spec fn no_positive_entry(n: nat, c: Seq<Seq<i64>>) -> bool {
    forall|i: int, j: int| 0 <= i < n && 0 <= j < n ==> #[trigger] c[i][j] <= 0
}

/// Whether some entry of `c`, a capacity matrix over the nodes of `t`, is
/// positive.
pub fn has_positive_entry(t: &Topology, c: &Vec<Vec<i64>>) -> (r: bool)
    requires
        t.wf(),
        fits(*t, view2(c@)),
    ensures
        r == !no_positive_entry(t.node_count as nat, view2(c@)),
{
    let ghost m = view2(c@);
    let found = next_tier(c, t.node_count, 1, (MAX_CAPACITY as i64) + 1);
    proof {
        if found is None {
            assert forall|i: int, j: int| 0 <= i < t.node_count && 0 <= j < t.node_count implies #[trigger] m[i][j] <= 0 by {
                assert(t.cap()[i][j] <= MAX_CAPACITY);
                assert(!(1 <= m[i][j] < MAX_CAPACITY + 1));
            }
        } else {
            let v = found->Some_0;
            let (i, j) = choose|i: int, j: int| 0 <= i < t.node_count && 0 <= j < t.node_count && m[i][j] == v;
            assert(m[i][j] > 0);
        }
    }
    found.is_some()
}

/// The largest entry of `c` that is at least `floor` and below `upper`.
fn next_tier(c: &Vec<Vec<i64>>, n: usize, floor: i64, upper: i64) -> (r: Option<i64>)
    requires
        view2(c@).len() == n,
        forall|i: int| 0 <= i < n ==> (#[trigger] view2(c@)[i]).len() == n,
    ensures
        match r {
            Some(v) => {
                &&& floor <= v < upper
                &&& exists|i: int, j: int| 0 <= i < n && 0 <= j < n && view2(c@)[i][j] == v
                &&& forall|i: int, j: int|
                    0 <= i < n && 0 <= j < n && floor <= #[trigger] view2(c@)[i][j] < upper ==> view2(c@)[i][j] <= v
            },
            None => forall|i: int, j: int|
                0 <= i < n && 0 <= j < n ==> !(floor <= #[trigger] view2(c@)[i][j] < upper),
        },
{
    let ghost m = view2(c@);
    let mut best: Option<i64> = None;
    let mut i: usize = 0;
    while i < n
        invariant
            m == view2(c@),
            m.len() == n,
            forall|x: int| 0 <= x < n ==> (#[trigger] m[x]).len() == n,
            i <= n,
            match best {
                Some(v) => {
                    &&& floor <= v < upper
                    &&& exists|a: int, b: int| 0 <= a < n && 0 <= b < n && m[a][b] == v
                    &&& forall|a: int, b: int| 0 <= a < i && 0 <= b < n && floor <= #[trigger] m[a][b] < upper ==> m[a][b] <= v
                },
                None => forall|a: int, b: int| 0 <= a < i && 0 <= b < n ==> !(floor <= #[trigger] m[a][b] < upper),
            },
        decreases n - i,
    {
        let mut j: usize = 0;
        while j < n
            invariant
                m == view2(c@),
                m.len() == n,
                forall|x: int| 0 <= x < n ==> (#[trigger] m[x]).len() == n,
                i < n,
                j <= n,
                match best {
                    Some(v) => {
                        &&& floor <= v < upper
                        &&& exists|a: int, b: int| 0 <= a < n && 0 <= b < n && m[a][b] == v
                        &&& forall|a: int, b: int|
                            (0 <= a < i && 0 <= b < n || a == i && 0 <= b < j) && floor <= #[trigger] m[a][b] < upper ==> m[a][b] <= v
                    },
                    None => forall|a: int, b: int|
                        (0 <= a < i && 0 <= b < n || a == i && 0 <= b < j) ==> !(floor <= #[trigger] m[a][b] < upper),
                },
            decreases n - j,
        {
            assert(m[i as int].len() == n);
            let x = c[i][j];
            assert(x == m[i as int][j as int]);
            if floor <= x && x < upper {
                match best {
                    Some(v) => {
                        if x > v {
                            best = Some(x);
                        }
                    },
                    None => {
                        best = Some(x);
                    },
                }
            }
            j = j + 1;
        }
        i = i + 1;
    }
    best
}

/// A maximum-capacity-then-shortest route from `source_node` to
/// `destination_node` over the links whose entry in `c` is at least
/// `floor`, or `None` when there is no route over such links.
pub fn find_maximum_capacity_path(
    t: &Topology,
    c: &Vec<Vec<i64>>,
    floor: i64,
    source_node: usize,
    destination_node: usize,
) -> (r: Option<Vec<usize>>)
    requires
        t.wf(),
        fits(*t, view2(c@)),
        floor >= 0,
        source_node < t.node_count,
        destination_node < t.node_count,
        source_node != destination_node,
    ensures
        no_positive_entry(t.node_count as nat, view2(c@)) ==> r is None,
        !no_positive_entry(t.node_count as nat, view2(c@)) ==> match r {
            Some(p) => is_widest_route(
                t.node_count as nat,
                t.dist(),
                view2(c@),
                floor as int,
                p@,
                source_node as int,
                destination_node as int,
            ),
            None => forall|q: Seq<usize>|
                !is_route(t.node_count as nat, view2(c@), floor as int, q, source_node as int, destination_node as int),
        },
{
    if !has_positive_entry(t, c) {
        return None;
    }
    let ghost m = view2(c@);
    let ghost n = t.node_count as nat;
    let ghost s = source_node as int;
    let ghost d = destination_node as int;
    let mut upper: i64 = (MAX_CAPACITY as i64) + 1;
    if upper < floor {
        upper = floor;
    }
    proof {
        assert forall|q: Seq<usize>| #[trigger] is_route(n, m, floor as int, q, s, d) implies bottleneck(m, q) < upper by {
            lemma_bottleneck_is_link(m, q);
            let k = choose|k: int| 0 <= k < q.len() - 1 && bottleneck(m, q) == m[q[k] as int][q[k + 1] as int];
            assert(q[k] < n && q[k + 1] < n);
            assert(t.cap()[q[k] as int][q[k + 1] as int] <= MAX_CAPACITY);
        }
    }
    loop
        invariant
            t.wf(),
            fits(*t, m),
            m == view2(c@),
            n == t.node_count,
            s == source_node,
            d == destination_node,
            source_node < n,
            destination_node < n,
            source_node != destination_node,
            floor >= 0,
            floor <= upper,
            !no_positive_entry(n, m),
            forall|q: Seq<usize>| #[trigger] is_route(n, m, floor as int, q, s, d) ==> bottleneck(m, q) < upper,
        decreases upper - floor,
    {
        let tier = next_tier(c, t.node_count, floor, upper);
        match tier {
            None => {
                assert forall|q: Seq<usize>| !is_route(n, m, floor as int, q, s, d) by {
                    if is_route(n, m, floor as int, q, s, d) {
                        lemma_bottleneck_is_link(m, q);
                        lemma_walk_iff_bottleneck(n, m, floor as int, q);
                        let k = choose|k: int| 0 <= k < q.len() - 1 && bottleneck(m, q) == m[q[k] as int][q[k + 1] as int];
                        assert(q[k] < n && q[k + 1] < n);
                    }
                }
                return None;
            },
            Some(cv) => {
                // every route over the links revealed so far has a bottleneck
                // of at most this tier's capacity
                assert forall|q: Seq<usize>| #[trigger] is_route(n, m, floor as int, q, s, d) implies {
                    &&& bottleneck(m, q) <= cv
                    &&& (bottleneck(m, q) >= cv ==> is_route(n, m, cv as int, q, s, d))
                } by {
                    lemma_bottleneck_is_link(m, q);
                    lemma_walk_iff_bottleneck(n, m, floor as int, q);
                    lemma_walk_iff_bottleneck(n, m, cv as int, q);
                    let k = choose|k: int| 0 <= k < q.len() - 1 && bottleneck(m, q) == m[q[k] as int][q[k + 1] as int];
                    assert(q[k] < n && q[k + 1] < n);
                }
                let found = shortest_path(t, c, cv, source_node, destination_node);
                match found {
                    Some(p) => {
                        assert forall|k: int| 0 <= k < p@.len() - 1 implies m[#[trigger] p@[k] as int][p@[k + 1] as int] >= floor by {
                        }
                        assert(is_route(n, m, floor as int, p@, s, d));
                        assert(bottleneck(m, p@) <= cv);
                        proof {
                            lemma_walk_iff_bottleneck(n, m, cv as int, p@);
                        }
                        return Some(p);
                    },
                    None => {
                        upper = cv;
                    },
                }
            },
        }
    }
}

} // verus!
