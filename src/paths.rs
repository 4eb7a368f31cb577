//! Routes through the network: which node sequences are routes, how long
//! they are, and a search for a shortest route over the links whose
//! capacity reaches a threshold.

use vstd::prelude::*;
use vstd::set_lib::{lemma_int_range, lemma_len_subset, set_int_range};
use crate::matrix::{copy_vec, filled_row, is_square, view2};
use crate::topology::{Topology, MAX_DISTANCE};

verus! {

/// Distance entry of a node that the search has not reached.
pub const UNREACHED: u64 = 0xffff_ffff_ffff_ffff;

/// The link from `u` to `v` may carry a route: its capacity entry in `c`
/// reaches `thr`.
pub open spec fn usable(c: Seq<Seq<i64>>, thr: int, u: int, v: int) -> bool {
    c[u][v] >= thr
}

/// `p` is a non-empty sequence of nodes below `n`, each joined to the next
/// by a usable link.
pub open spec fn is_walk(n: nat, c: Seq<Seq<i64>>, thr: int, p: Seq<usize>) -> bool {
    &&& p.len() >= 1
    &&& forall|k: int| 0 <= k < p.len() ==> (#[trigger] p[k]) < n
    &&& forall|k: int|
        #![trigger p[k]]
        0 <= k < p.len() - 1 ==> usable(c, thr, p[k] as int, p[k + 1] as int)
}

/// `p` is a route from `s` to `d`: a walk of distinct nodes that starts at
/// `s` and ends at `d`.
pub open spec fn is_route(n: nat, c: Seq<Seq<i64>>, thr: int, p: Seq<usize>, s: int, d: int) -> bool {
    &&& is_walk(n, c, thr, p)
    &&& p.no_duplicates()
    &&& p[0] == s
    &&& p.last() == d
}

/// Sum of the distances of the links along `p`.
pub open spec fn path_length(dist: Seq<Seq<u64>>, p: Seq<usize>) -> int
    decreases p.len(),
{
    if p.len() < 2 {
        0
    } else {
        path_length(dist, p.drop_last()) + dist[p[p.len() - 2] as int][p.last() as int]
    }
}

/// `p` is a route from `s` to `d` and none is shorter.
pub open spec fn is_shortest_route(
    n: nat,
    dist: Seq<Seq<u64>>,
    c: Seq<Seq<i64>>,
    thr: int,
    p: Seq<usize>,
    s: int,
    d: int,
) -> bool {
    &&& is_route(n, c, thr, p, s, d)
    &&& forall|q: Seq<usize>|
        #[trigger] is_route(n, c, thr, q, s, d) ==> path_length(dist, p) <= path_length(dist, q)
}

/// `c` is a capacity matrix over the nodes of `t` that never exceeds the
/// total capacity of `t`; in particular it is negative wherever `t` has no
/// link.
pub open spec fn fits(t: Topology, c: Seq<Seq<i64>>) -> bool {
    &&& is_square(c, t.node_count as nat)
    &&& forall|i: int, j: int|
        #![trigger c[i][j]]
        0 <= i < t.node_count && 0 <= j < t.node_count ==> c[i][j] <= t.cap()[i][j]
}

/// The search state after some rounds: every reached node other than the
/// source has a predecessor that is reached, joined to it by a usable link,
/// and no farther than its own distance minus that link.
pub open spec fn tree_ok(
    t: Topology,
    c: Seq<Seq<i64>>,
    thr: int,
    s: int,
    dist: Seq<u64>,
    prev: Seq<usize>,
    bound: int,
) -> bool {
    let n = t.node_count as int;
    &&& dist.len() == n
    &&& prev.len() == n
    &&& dist[s] == 0
    &&& forall|v: int| 0 <= v < n && #[trigger] dist[v] != UNREACHED ==> dist[v] <= bound
    &&& forall|v: int|
        #![trigger prev[v]]
        0 <= v < n && v != s && dist[v] != UNREACHED ==> {
            &&& prev[v] < n
            &&& usable(c, thr, prev[v] as int, v)
            &&& dist[prev[v] as int] != UNREACHED
            &&& dist[prev[v] as int] + t.dist()[prev[v] as int][v] <= dist[v]
        }
}

/// Every walk from `s` of at most `k + 1` nodes ends at a reached node whose
/// distance is at most the walk's length.
pub open spec fn walks_bounded(t: Topology, c: Seq<Seq<i64>>, thr: int, s: int, dist: Seq<u64>, k: nat) -> bool {
    forall|q: Seq<usize>|
        #[trigger] is_walk(t.node_count as nat, c, thr, q) && q[0] == s && q.len() <= k + 1 ==> {
            &&& dist[q.last() as int] != UNREACHED
            &&& dist[q.last() as int] <= path_length(t.dist(), q)
        }
}

/// A sequence of distinct nodes below `n` has at most `n` entries.
pub proof fn lemma_distinct_nodes_len(q: Seq<usize>, n: nat)
    requires
        q.no_duplicates(),
        forall|k: int| 0 <= k < q.len() ==> (#[trigger] q[k]) < n,
    ensures
        q.len() <= n,
{
    let f = |x: usize| x as int;
    let qi = q.map_values(f);
    q.lemma_no_duplicates_injective(f);
    qi.unique_seq_to_set();
    lemma_int_range(0, n as int);
    assert forall|x: int| qi.to_set().contains(x) implies set_int_range(0, n as int).contains(x) by {
        let k = choose|k: int| 0 <= k < qi.len() && qi[k] == x;
        assert(q[k] < n);
    }
    lemma_len_subset(qi.to_set(), set_int_range(0, n as int));
}

/// Putting a node in front of a sequence adds the distance of the new link.
pub proof fn lemma_path_length_prepend(dist: Seq<Seq<u64>>, x: usize, p: Seq<usize>)
    requires
        p.len() >= 1,
    ensures
        path_length(dist, seq![x] + p) == dist[x as int][p[0] as int] + path_length(dist, p),
    decreases p.len(),
{
    let xp = seq![x] + p;
    assert(xp[xp.len() - 2] == (if p.len() == 1 { x } else { p[p.len() - 2] }));
    assert(xp.last() == p.last());
    if p.len() == 1 {
        assert(xp.drop_last() =~= seq![x]);
        assert(path_length(dist, seq![x]) == 0);
        assert(path_length(dist, xp) == path_length(dist, xp.drop_last()) + dist[xp[xp.len() - 2] as int][xp.last() as int]);
    } else {
        assert(xp.drop_last() =~= seq![x] + p.drop_last());
        lemma_path_length_prepend(dist, x, p.drop_last());
        assert(p.drop_last()[0] == p[0]);
        assert(path_length(dist, xp) == path_length(dist, xp.drop_last()) + dist[xp[xp.len() - 2] as int][xp.last() as int]);
        assert(path_length(dist, p) == path_length(dist, p.drop_last()) + dist[p[p.len() - 2] as int][p.last() as int]);
    }
}

/// One more round of relaxation extends the bound on walks by one link.
proof fn lemma_walks_step(
    t: Topology,
    c: Seq<Seq<i64>>,
    thr: int,
    s: int,
    before: Seq<u64>,
    after: Seq<u64>,
    k: nat,
)
    requires
        walks_bounded(t, c, thr, s, before, k),
        before.len() == t.node_count,
        after.len() == t.node_count,
        forall|v: int| 0 <= v < t.node_count ==> #[trigger] after[v] <= before[v],
        forall|u: int, v: int|
            #![trigger usable(c, thr, u, v)]
            0 <= u < t.node_count && 0 <= v < t.node_count && usable(c, thr, u, v)
                && before[u] != UNREACHED ==> {
                &&& after[v] != UNREACHED
                &&& after[v] <= before[u] + t.dist()[u][v]
            },
    ensures
        walks_bounded(t, c, thr, s, after, k + 1),
{
    let n = t.node_count as nat;
    assert forall|q: Seq<usize>|
        #[trigger] is_walk(n, c, thr, q) && q[0] == s && q.len() <= k + 2 implies {
            &&& after[q.last() as int] != UNREACHED
            &&& after[q.last() as int] <= path_length(t.dist(), q)
        } by {
        if q.len() <= k + 1 {
            assert(after[q.last() as int] <= before[q.last() as int]);
        } else {
            let p = q.drop_last();
            assert forall|i: int| 0 <= i < p.len() implies (#[trigger] p[i]) < n by {
                assert(q[i] < n);
            }
            assert forall|i: int| 0 <= i < p.len() - 1 implies usable(c, thr, #[trigger] p[i] as int, p[i + 1] as int) by {
                assert(q[i] < n);
            }
            assert(is_walk(n, c, thr, p));
            let u = q[q.len() - 2];
            let v = q.last();
            assert(q[q.len() - 2] < n);
            assert(q[q.len() - 1] < n);
            assert(usable(c, thr, u as int, v as int));
        }
    }
}

/// One round: every usable link `(u, v)` lowers the distance of `v` to at
/// most the distance of `u` before the round plus the link's distance.
fn relax_round(
    t: &Topology,
    c: &Vec<Vec<i64>>,
    thr: i64,
    s: usize,
    dist: &mut Vec<u64>,
    prev: &mut Vec<usize>,
    Ghost(k): Ghost<nat>,
)
    requires
        t.wf(),
        fits(*t, view2(c@)),
        thr >= 0,
        s < t.node_count,
        k < t.node_count,
        tree_ok(*t, view2(c@), thr as int, s as int, old(dist)@, old(prev)@, k * MAX_DISTANCE),
    ensures
        tree_ok(*t, view2(c@), thr as int, s as int, final(dist)@, final(prev)@, (k + 1) * MAX_DISTANCE),
        forall|v: int| 0 <= v < t.node_count ==> #[trigger] final(dist)@[v] <= old(dist)@[v],
        forall|u: int, v: int|
            #![trigger usable(view2(c@), thr as int, u, v)]
            0 <= u < t.node_count && 0 <= v < t.node_count && usable(view2(c@), thr as int, u, v)
                && old(dist)@[u] != UNREACHED ==> {
                &&& final(dist)@[v] != UNREACHED
                &&& final(dist)@[v] <= old(dist)@[u] + t.dist()[u][v]
            },
{
    let ghost cm = view2(c@);
    let ghost tm = t.dist();
    let n = t.node_count;
    let before = copy_vec(dist);
    let mut u: usize = 0;
    while u < n
        invariant
            t.wf(),
            fits(*t, cm),
            cm == view2(c@),
            tm == t.dist(),
            thr >= 0,
            s < n,
            n == t.node_count,
            k < n,
            u <= n,
            before@.len() == n,
            forall|v: int| 0 <= v < n && before@[v] != UNREACHED ==> #[trigger] before@[v] <= k * MAX_DISTANCE,
            tree_ok(*t, cm, thr as int, s as int, dist@, prev@, (k + 1) * MAX_DISTANCE),
            forall|v: int| 0 <= v < n ==> #[trigger] dist@[v] <= before@[v],
            forall|a: int, v: int|
                #![trigger usable(cm, thr as int, a, v)]
                0 <= a < u && 0 <= v < n && usable(cm, thr as int, a, v) && before@[a] != UNREACHED ==> {
                    &&& dist@[v] != UNREACHED
                    &&& dist@[v] <= before@[a] + tm[a][v]
                },
        decreases n - u,
    {
        let du = before[u];
        let mut v: usize = 0;
        while v < n
            invariant
                t.wf(),
                fits(*t, cm),
                cm == view2(c@),
                tm == t.dist(),
                thr >= 0,
                s < n,
                n == t.node_count,
                k < n,
                u < n,
                v <= n,
                du == before@[u as int],
                before@.len() == n,
                forall|w: int| 0 <= w < n && before@[w] != UNREACHED ==> #[trigger] before@[w] <= k * MAX_DISTANCE,
                tree_ok(*t, cm, thr as int, s as int, dist@, prev@, (k + 1) * MAX_DISTANCE),
                forall|w: int| 0 <= w < n ==> #[trigger] dist@[w] <= before@[w],
                forall|a: int, w: int|
                    #![trigger usable(cm, thr as int, a, w)]
                    0 <= a < u && 0 <= w < n && usable(cm, thr as int, a, w) && before@[a] != UNREACHED ==> {
                        &&& dist@[w] != UNREACHED
                        &&& dist@[w] <= before@[a] + tm[a][w]
                    },
                forall|w: int|
                    0 <= w < v && usable(cm, thr as int, u as int, w) && du != UNREACHED ==> {
                        &&& #[trigger] dist@[w] != UNREACHED
                        &&& dist@[w] <= du + tm[u as int][w]
                    },
            decreases n - v,
        {
            assert(cm[u as int][v as int] == c@[u as int]@[v as int]);
            if du != UNREACHED && c[u][v] >= thr {
                assert(t.cap()[u as int][v as int] >= 0);
                assert(1 <= tm[u as int][v as int] <= MAX_DISTANCE);
                assert(tm[u as int][v as int] == t.distance@[u as int]@[v as int]);
                assert(du <= k * MAX_DISTANCE);
                let cand = du + t.distance[u][v];
                if cand < dist[v] {
                    let ghost d0 = dist@;
                    let ghost p0 = prev@;
                    dist.set(v, cand);
                    prev.set(v, u);
                    assert(dist@[u as int] <= du);
                    assert forall|w: int|
                        0 <= w < n && w != s && dist@[w] != UNREACHED implies {
                            &&& #[trigger] prev@[w] < n
                            &&& usable(cm, thr as int, prev@[w] as int, w)
                            &&& dist@[prev@[w] as int] != UNREACHED
                            &&& dist@[prev@[w] as int] + tm[prev@[w] as int][w] <= dist@[w]
                        } by {
                        if w != v {
                            assert(p0[w] == prev@[w]);
                            assert(d0[w] == dist@[w]);
                            assert(dist@[prev@[w] as int] <= d0[prev@[w] as int]);
                        }
                    }
                }
            }
            v = v + 1;
        }
        u = u + 1;
    }
}

/// A shortest route from `source` to `destination` over the links whose
/// entry in `c` is at least `thr`, or `None` when no such route exists.
pub fn shortest_path(t: &Topology, c: &Vec<Vec<i64>>, thr: i64, source: usize, destination: usize) -> (r: Option<Vec<usize>>)
    requires
        t.wf(),
        fits(*t, view2(c@)),
        thr >= 0,
        source < t.node_count,
        destination < t.node_count,
    ensures
        match r {
            Some(p) => is_shortest_route(t.node_count as nat, t.dist(), view2(c@), thr as int, p@, source as int, destination as int),
            None => forall|q: Seq<usize>| !is_route(t.node_count as nat, view2(c@), thr as int, q, source as int, destination as int),
        },
{
    let ghost cm = view2(c@);
    let n = t.node_count;
    let mut dist = filled_row(n, UNREACHED);
    dist.set(source, 0);
    let mut prev = filled_row(n, n);
    let mut k: usize = 0;
    assert forall|q: Seq<usize>|
        #[trigger] is_walk(n as nat, cm, thr as int, q) && q[0] == source && q.len() <= 1 implies {
            &&& dist@[q.last() as int] != UNREACHED
            &&& dist@[q.last() as int] <= path_length(t.dist(), q)
        } by {
    }
    while k < n
        invariant
            t.wf(),
            fits(*t, cm),
            cm == view2(c@),
            thr >= 0,
            source < n,
            destination < n,
            n == t.node_count,
            k <= n,
            tree_ok(*t, cm, thr as int, source as int, dist@, prev@, k * MAX_DISTANCE),
            walks_bounded(*t, cm, thr as int, source as int, dist@, k as nat),
        decreases n - k,
    {
        let ghost before = dist@;
        relax_round(t, c, thr, source, &mut dist, &mut prev, Ghost(k as nat));
        proof {
            lemma_walks_step(*t, cm, thr as int, source as int, before, dist@, k as nat);
        }
        k = k + 1;
    }
    if dist[destination] == UNREACHED {
        assert forall|q: Seq<usize>| !is_route(n as nat, cm, thr as int, q, source as int, destination as int) by {
            if is_route(n as nat, cm, thr as int, q, source as int, destination as int) {
                lemma_distinct_nodes_len(q, n as nat);
            }
        }
        return None;
    }
    let mut path: Vec<usize> = Vec::new();
    path.push(destination);
    let mut cur = destination;
    while cur != source
        invariant
            t.wf(),
            fits(*t, cm),
            cm == view2(c@),
            thr >= 0,
            source < n,
            destination < n,
            n == t.node_count,
            tree_ok(*t, cm, thr as int, source as int, dist@, prev@, n * MAX_DISTANCE),
            cur < n,
            dist@[cur as int] != UNREACHED,
            dist@[destination as int] != UNREACHED,
            is_walk(n as nat, cm, thr as int, path@),
            path@[0] == cur,
            path@.last() == destination,
            forall|i: int, j: int|
                0 <= i < j < path@.len() ==> dist@[#[trigger] path@[i] as int] < dist@[#[trigger] path@[j] as int],
            forall|i: int| 0 <= i < path@.len() ==> dist@[#[trigger] path@[i] as int] != UNREACHED,
            path_length(t.dist(), path@) + dist@[cur as int] <= dist@[destination as int],
        decreases dist@[cur as int],
    {
        let ghost old_path = path@;
        let p = prev[cur];
        assert(t.cap()[p as int][cur as int] >= 0);
        path.insert(0, p);
        assert(path@ =~= seq![p] + old_path);
        proof {
            lemma_path_length_prepend(t.dist(), p, old_path);
        }
        assert forall|i: int| 0 <= i < path@.len() implies (#[trigger] path@[i]) < n by {
            if i > 0 {
                assert(path@[i] == old_path[i - 1]);
            }
        }
        assert forall|i: int|
            #![trigger path@[i]]
            0 <= i < path@.len() - 1 implies usable(cm, thr as int, path@[i] as int, path@[i + 1] as int) by {
            if i > 0 {
                assert(path@[i] == old_path[i - 1]);
                assert(path@[i + 1] == old_path[i]);
            }
        }
        assert forall|i: int, j: int|
            0 <= i < j < path@.len() implies dist@[#[trigger] path@[i] as int] < dist@[#[trigger] path@[j] as int] by {
            if i > 0 {
                assert(path@[i] == old_path[i - 1]);
            }
            assert(path@[j] == old_path[j - 1]);
            if j > 1 {
                assert(dist@[old_path[0] as int] < dist@[old_path[j - 1] as int]);
            }
        }
        assert forall|i: int| 0 <= i < path@.len() implies dist@[#[trigger] path@[i] as int] != UNREACHED by {
            if i > 0 {
                assert(path@[i] == old_path[i - 1]);
            }
        }
        cur = p;
    }
    assert forall|i: int, j: int| 0 <= i < path@.len() && 0 <= j < path@.len() && i != j implies path@[i] != path@[j] by {
        if i < j {
            assert(dist@[path@[i] as int] < dist@[path@[j] as int]);
        } else {
            assert(dist@[path@[j] as int] < dist@[path@[i] as int]);
        }
    }
    assert(is_route(n as nat, cm, thr as int, path@, source as int, destination as int));
    assert forall|q: Seq<usize>| #[trigger] is_route(n as nat, cm, thr as int, q, source as int, destination as int) implies path_length(
        t.dist(),
        path@,
    ) <= path_length(t.dist(), q) by {
        lemma_distinct_nodes_len(q, n as nat);
    }
    Some(path)
}

} // verus!
