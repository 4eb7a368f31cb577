//! Routing strategies and the request loop of a replication.

use rand::Rng;
use vstd::prelude::*;
use crate::ledger::{is_link_path, Ledger};
use crate::lifecycle::Replication;
use crate::matrix::copy_vec;
use crate::paths::{fits, is_route, is_shortest_route, shortest_path};
use crate::tables::{
    calculate_all_paths, calculate_shortest_paths, shortest_entry_ok, widest_entry_ok, AllPathsInfo,
};
use crate::topology::Topology;
use crate::widest::{find_maximum_capacity_path, is_widest_route, no_positive_entry};

verus! {

/// How a route is chosen for a request.
#[derive(Debug, Clone, Copy, PartialEq, Eq, Structural)]
pub enum Strategy {
    /// Shortest route over all links, computed once.
    StaticShortest,
    /// Shortest route over the links with a free unit, computed per request.
    OnDemandShortest,
    /// Maximum-capacity-then-shortest route judged by total capacity,
    /// computed once.
    StaticWidest,
    /// Maximum-capacity-then-shortest route judged by free capacity over the
    /// links with a free unit, computed per request.
    OnDemandWidest,
}

/// `r` is a shortest route from `s` to `d` over the links whose entry in
/// `c` reaches `thr`, or `None` when there is no such route.
pub open spec fn shortest_outcome(t: Topology, c: Seq<Seq<i64>>, thr: int, r: Option<Seq<usize>>, s: int, d: int) -> bool {
    match r {
        Some(p) => is_shortest_route(t.node_count as nat, t.dist(), c, thr, p, s, d),
        None => forall|q: Seq<usize>| !is_route(t.node_count as nat, c, thr, q, s, d),
    }
}

/// `r` is a maximum-capacity-then-shortest route from `s` to `d` over the
/// links whose entry in `c` reaches `floor`, or `None` when there is no such
/// route.
pub open spec fn widest_outcome(t: Topology, c: Seq<Seq<i64>>, floor: int, r: Option<Seq<usize>>, s: int, d: int) -> bool {
    match r {
        Some(p) => is_widest_route(t.node_count as nat, t.dist(), c, floor, p, s, d),
        None => forall|q: Seq<usize>| !is_route(t.node_count as nat, c, floor, q, s, d),
    }
}

/// The view of an optional path.
pub open spec fn opt_view(r: Option<Vec<usize>>) -> Option<Seq<usize>> {
    match r {
        Some(p) => Some(p@),
        None => None,
    }
}

/// A route over links that the ledger or the topology allows is a path
/// over links of the topology.
pub proof fn lemma_route_on_links(t: Topology, c: Seq<Seq<i64>>, thr: int, p: Seq<usize>, s: int, d: int)
    requires
        t.wf(),
        fits(t, c),
        thr >= 0,
        is_route(t.node_count as nat, c, thr, p, s, d),
    ensures
        is_link_path(t, p),
{
    assert forall|k: int| #![trigger p[k]] 0 <= k < p.len() - 1 implies t.cap()[p[k] as int][p[k + 1] as int] >= 0 by {
        assert(p[k] < t.node_count && p[k + 1] < t.node_count);
        assert(c[p[k] as int][p[k + 1] as int] >= thr);
    }
}

/// A strategy, with the table it routes by when it is a static one.
pub struct Router {
    pub strategy: Strategy,
    pub table: AllPathsInfo,
}

impl Router {
    pub open spec fn wf(&self, t: Topology) -> bool {
        &&& self.table.wf()
        &&& self.table.node_count == t.node_count
        &&& self.strategy == Strategy::StaticShortest ==> forall|s: int, d: int|
            0 <= s < t.node_count && 0 <= d < t.node_count ==> shortest_entry_ok(t, #[trigger] self.table.entry(s, d), s, d)
        &&& self.strategy == Strategy::StaticWidest ==> forall|s: int, d: int|
            0 <= s < t.node_count && 0 <= d < t.node_count ==> widest_entry_ok(t, #[trigger] self.table.entry(s, d), s, d)
    }

    /// `r` is a route that this router may give from `s` to `d` when the
    /// ledger is `l`; the static strategies give none when no link has
    /// positive capacity.
    pub open spec fn route_ok(&self, t: Topology, l: Ledger, s: int, d: int, r: Option<Seq<usize>>) -> bool {
        match self.strategy {
            Strategy::StaticShortest => if no_positive_entry(t.node_count as nat, t.cap()) {
                r is None
            } else {
                shortest_outcome(t, t.cap(), 0, r, s, d)
            },
            Strategy::OnDemandShortest => shortest_outcome(t, l.avail(), 1, r, s, d),
            Strategy::StaticWidest => if no_positive_entry(t.node_count as nat, t.cap()) {
                r is None
            } else {
                widest_outcome(t, t.cap(), 0, r, s, d)
            },
            Strategy::OnDemandWidest => widest_outcome(t, l.avail(), 1, r, s, d),
        }
    }

    /// A router for `strategy` on `t`; the static strategies compute their
    /// table here.
    pub fn new(t: &Topology, strategy: Strategy) -> (r: Router)
        requires
            t.wf(),
        ensures
            r.wf(*t),
            r.strategy == strategy,
    {
        let table = match strategy {
            Strategy::StaticShortest => calculate_shortest_paths(t),
            Strategy::StaticWidest => calculate_all_paths(t),
            _ => AllPathsInfo::new(t.node_count),
        };
        Router { strategy, table }
    }

    /// The route for a request from `s` to `d` when the ledger is `l`.
    pub fn route(&self, t: &Topology, l: &Ledger, s: usize, d: usize) -> (r: Option<Vec<usize>>)
        requires
            t.wf(),
            self.wf(*t),
            l.wf(*t),
            s < t.node_count,
            d < t.node_count,
            s != d,
        ensures
            self.route_ok(*t, *l, s as int, d as int, opt_view(r)),
            r matches Some(p) ==> is_link_path(*t, p@),
    {
        proof {
            assert(fits(*t, t.cap()));
            assert(fits(*t, l.avail()));
        }
        let r = match self.strategy {
            Strategy::StaticShortest | Strategy::StaticWidest => match self.table.get_path(s, d) {
                Some(p) => Some(copy_vec(p)),
                None => None,
            },
            Strategy::OnDemandShortest => shortest_path(t, &l.available, 1, s, d),
            Strategy::OnDemandWidest => find_maximum_capacity_path(t, &l.available, 1, s, d),
        };
        proof {
            if r is Some {
                let p = r->Some_0;
                match self.strategy {
                    Strategy::StaticShortest | Strategy::StaticWidest => {
                        lemma_route_on_links(*t, t.cap(), 0, p@, s as int, d as int);
                    },
                    _ => {
                        lemma_route_on_links(*t, l.avail(), 1, p@, s as int, d as int);
                    },
                }
            }
        }
        r
    }
}

/// Number of `true` entries in `s`.
pub open spec fn count_true(s: Seq<bool>) -> nat
    decreases s.len(),
{
    if s.len() == 0 {
        0
    } else {
        count_true(s.drop_last()) + (if s.last() {
            1nat
        } else {
            0nat
        })
    }
}

/// `t` has a route from `s` to `d` over its links.
pub open spec fn connected(t: Topology, s: int, d: int) -> bool {
    exists|q: Seq<usize>| #[trigger] is_route(t.node_count as nat, t.cap(), 0, q, s, d)
}

/// Any route that a router gives runs over links of the topology.
pub proof fn lemma_routed_means_connected(router: Router, t: Topology, l: Ledger, s: int, d: int, p: Seq<usize>)
    requires
        t.wf(),
        l.wf(t),
        router.route_ok(t, l, s, d, Some(p)),
    ensures
        is_route(t.node_count as nat, t.cap(), 0, p, s, d),
        connected(t, s, d),
{
    let n = t.node_count as nat;
    match router.strategy {
        Strategy::StaticShortest | Strategy::StaticWidest => {},
        _ => {
            assert(is_route(n, l.avail(), 1, p, s, d));
            assert forall|k: int| #![trigger p[k]] 0 <= k < p.len() - 1 implies t.cap()[p[k] as int][p[k + 1] as int] >= 0 by {
                assert(p[k] < n && p[k + 1] < n);
                assert(l.avail()[p[k] as int][p[k + 1] as int] >= 1);
            }
        },
    }
    assert(is_route(n, t.cap(), 0, p, s, d));
}

/// A request from `s` to `d` is two distinct nodes of `t`.
pub open spec fn valid_request(t: Topology, q: (usize, usize)) -> bool {
    q.0 < t.node_count && q.1 < t.node_count && q.0 != q.1
}

/// Deciding a request from `s` to `d` with `router`, with outcome
/// `admitted`, takes the replication from `before` to `after`: the route is
/// one that the router may give on `before`'s ledger, the request is
/// admitted exactly when there is a route with a free unit on every link,
/// its record is written into the ring, the cursor moves on by one slot,
/// and the counters count it.
pub open spec fn request_step(
    router: Router,
    t: Topology,
    before: Replication,
    s: int,
    d: int,
    admitted: bool,
    after: Replication,
) -> bool {
    &&& after.wf(t)
    &&& after.window == before.window
    &&& after.next == (before.next + 1) % (before.window as int)
    &&& after.attempts == before.attempts + 1
    &&& after.successes == before.successes + (if admitted {
        1int
    } else {
        0int
    })
    &&& exists|r: Option<Seq<usize>>|
        #[trigger] router.route_ok(t, before.ledger, s, d, r) && admitted == (r matches Some(p) && before.ledger.can_carry(p))
            && after.calls() == before.calls_after_write(
            if admitted {
                (true, r.unwrap())
            } else {
                (false, Seq::<usize>::empty())
            },
        )
    &&& admitted ==> connected(t, s, d)
}

/// `r` is the state of a replication with a ring of `window` slots before
/// any request: all capacity free, the ring empty, the counters zero.
pub open spec fn is_fresh(t: Topology, window: usize, r: Replication) -> bool {
    &&& r.wf(t)
    &&& r.window == window
    &&& r.next == 0
    &&& r.calls().len() == 0
    &&& r.ledger.avail() == t.cap()
    &&& r.attempts == 0
    &&& r.successes == 0
}

/// `states` are the states of a replication with a ring of `window` slots
/// that decides the valid requests `requests` in order, with the outcomes
/// `outcomes`: it starts fresh, and each request is one step.
#[verifier::opaque]
pub open spec fn is_run(
    router: Router,
    t: Topology,
    window: usize,
    requests: Seq<(usize, usize)>,
    outcomes: Seq<bool>,
    states: Seq<Replication>,
) -> bool {
    &&& states.len() == requests.len() + 1
    &&& outcomes.len() == requests.len()
    &&& is_fresh(t, window, states[0])
    &&& forall|k: int| 0 <= k < requests.len() ==> valid_request(t, #[trigger] requests[k])
    &&& forall|k: int|
        0 <= k < requests.len() ==> request_step(
            router,
            t,
            #[trigger] states[k],
            requests[k].0 as int,
            requests[k].1 as int,
            outcomes[k],
            states[k + 1],
        )
}

impl Replication {
    /// Routes one request from `s` to `d` with `router` and decides on it.
    pub fn process_request(&mut self, t: &Topology, router: &Router, s: usize, d: usize) -> (admitted: bool)
        requires
            t.wf(),
            router.wf(*t),
            old(self).wf(*t),
            old(self).attempts < u64::MAX,
            s < t.node_count,
            d < t.node_count,
            s != d,
        ensures
            request_step(*router, *t, *old(self), s as int, d as int, admitted, *final(self)),
    {
        let route = router.route(t, &self.ledger, s, d);
        let ghost rv = opt_view(route);
        let ghost before = *self;
        let admitted = self.process_route(t, route);
        proof {
            if admitted {
                lemma_routed_means_connected(*router, *t, before.ledger, s as int, d as int, rv.unwrap());
            }
            assert(router.route_ok(*t, before.ledger, s as int, d as int, rv));
        }
        admitted
    }
}

/// A fresh state alone is a run of no requests.
proof fn lemma_run_start(router: Router, t: Topology, window: usize, r: Replication)
    requires
        is_fresh(t, window, r),
    ensures
        is_run(router, t, window, Seq::empty(), Seq::empty(), seq![r]),
{
    reveal(is_run);
}

/// Extends a run by one step.
proof fn lemma_run_push(
    router: Router,
    t: Topology,
    window: usize,
    requests: Seq<(usize, usize)>,
    outcomes: Seq<bool>,
    states: Seq<Replication>,
    q: (usize, usize),
    admitted: bool,
    after: Replication,
)
    requires
        is_run(router, t, window, requests, outcomes, states),
        valid_request(t, q),
        request_step(router, t, states.last(), q.0 as int, q.1 as int, admitted, after),
    ensures
        is_run(router, t, window, requests.push(q), outcomes.push(admitted), states.push(after)),
{
    reveal(is_run);
    let rq = requests.push(q);
    let os = outcomes.push(admitted);
    let st = states.push(after);
    assert(st[0] == states[0]);
    assert forall|k: int| 0 <= k < rq.len() implies valid_request(t, #[trigger] rq[k]) by {
        if k < requests.len() {
            assert(rq[k] == requests[k]);
        }
    }
    assert forall|k: int| 0 <= k < rq.len() implies request_step(
        router,
        t,
        #[trigger] st[k],
        rq[k].0 as int,
        rq[k].1 as int,
        os[k],
        st[k + 1],
    ) by {
        if k < requests.len() {
            assert(st[k] == states[k]);
            assert(st[k + 1] == states[k + 1]);
            assert(rq[k] == requests[k]);
            assert(os[k] == outcomes[k]);
            assert(request_step(router, t, states[k], requests[k].0 as int, requests[k].1 as int, outcomes[k], states[k + 1]));
        } else {
            assert(st[k] == states.last());
        }
    }
}

/// Runs the requests `requests` in order through a fresh replication with a
/// ring of `window` slots, and returns its final state with the decision on
/// each request.
pub fn simulate(t: &Topology, router: &Router, window: usize, requests: &Vec<(usize, usize)>) -> (res: (
    Replication,
    Vec<bool>,
))
    requires
        t.wf(),
        router.wf(*t),
        window >= 1,
        forall|k: int| 0 <= k < requests@.len() ==> valid_request(*t, #[trigger] requests@[k]),
    ensures
        res.1@.len() == requests@.len(),
        exists|states: Seq<Replication>|
            #[trigger] is_run(*router, *t, window, requests@, res.1@, states) && states.last() == res.0,
        res.0.wf(*t),
        res.0.attempts == requests@.len(),
        res.0.successes == count_true(res.1@),
{
    let mut rep = Replication::new(t, window);
    let mut outcomes: Vec<bool> = Vec::new();
    let ghost mut states: Seq<Replication> = seq![rep];
    let mut k: usize = 0;
    assert(requests@.take(0) =~= Seq::<(usize, usize)>::empty());
    assert(outcomes@ =~= Seq::<bool>::empty());
    proof {
        lemma_run_start(*router, *t, window, rep);
    }
    while k < requests.len()
        invariant
            t.wf(),
            router.wf(*t),
            k <= requests@.len(),
            forall|m: int| 0 <= m < requests@.len() ==> valid_request(*t, #[trigger] requests@[m]),
            is_run(*router, *t, window, requests@.take(k as int), outcomes@, states),
            outcomes@.len() == k,
            states.len() == k + 1,
            states.last() == rep,
            rep.wf(*t),
            rep.window == window,
            rep.attempts == k,
            rep.successes == count_true(outcomes@),
        decreases requests@.len() - k,
    {
        let (s, d) = requests[k];
        assert(requests@[k as int] == (s, d));
        let ghost o0 = outcomes@;
        let ghost before = rep;
        let admitted = rep.process_request(t, router, s, d);
        outcomes.push(admitted);
        proof {
            lemma_run_push(*router, *t, window, requests@.take(k as int), o0, states, (s, d), admitted, rep);
            assert(requests@.take(k as int).push((s, d)) =~= requests@.take(k + 1));
            states = states.push(rep);
        }
        assert(outcomes@.drop_last() =~= o0);
        k = k + 1;
    }
    assert(requests@.take(k as int) =~= requests@);
    assert(is_run(*router, *t, window, requests@, outcomes@, states));
    let res = (rep, outcomes);
    assert(is_run(*router, *t, window, requests@, res.1@, states) && states.last() == res.0);
    res
}

/// Relies on rand's `thread_rng().gen_range(0..bound)`, which returns a
/// value in the range and panics only on an empty range.
#[verifier::external_body]
fn random_below(bound: usize) -> (r: usize)
    requires
        bound > 0,
    ensures
        r < bound,
{
    rand::thread_rng().gen_range(0..bound)
}

/// The request made of a source `first` and a draw `other` among the
/// remaining nodes: `other` skips over `first`.
pub fn pair_from_draws(first: usize, other: usize) -> (r: (usize, usize))
    requires
        other < usize::MAX,
    ensures
        r == (first, if other >= first {
            (other + 1) as usize
        } else {
            other
        }),
        r.0 != r.1,
{
    let d = if other >= first {
        other + 1
    } else {
        other
    };
    (first, d)
}

/// A random request: two distinct nodes below `node_count`, each pair
/// equally likely.
pub fn draw_request(node_count: usize) -> (r: (usize, usize))
    requires
        node_count >= 2,
    ensures
        r.0 < node_count,
        r.1 < node_count,
        r.0 != r.1,
{
    let first = random_below(node_count);
    let other = random_below(node_count - 1);
    pair_from_draws(first, other)
}

/// One replication of `request_count` random requests with a ring of
/// `window` slots; returns its final state, which is that of a run of some
/// `request_count` valid requests.
pub fn run_replication(t: &Topology, router: &Router, window: usize, request_count: u64) -> (rep: Replication)
    requires
        t.wf(),
        router.wf(*t),
        window >= 1,
        t.node_count >= 2,
    ensures
        exists|requests: Seq<(usize, usize)>, outcomes: Seq<bool>, states: Seq<Replication>|
            #[trigger] is_run(*router, *t, window, requests, outcomes, states) && requests.len() == request_count
                && states.last() == rep,
        rep.wf(*t),
        rep.attempts == request_count,
{
    let mut rep = Replication::new(t, window);
    let ghost mut requests: Seq<(usize, usize)> = Seq::empty();
    let ghost mut outcomes: Seq<bool> = Seq::empty();
    let ghost mut states: Seq<Replication> = seq![rep];
    proof {
        lemma_run_start(*router, *t, window, rep);
    }
    let mut k: u64 = 0;
    while k < request_count
        invariant
            t.wf(),
            router.wf(*t),
            t.node_count >= 2,
            k <= request_count,
            requests.len() == k,
            is_run(*router, *t, window, requests, outcomes, states),
            states.len() == k + 1,
            states.last() == rep,
            rep.wf(*t),
            rep.window == window,
            rep.attempts == k,
        decreases request_count - k,
    {
        let (s, d) = draw_request(t.node_count);
        let admitted = rep.process_request(t, router, s, d);
        proof {
            lemma_run_push(*router, *t, window, requests, outcomes, states, (s, d), admitted, rep);
            requests = requests.push((s, d));
            outcomes = outcomes.push(admitted);
            states = states.push(rep);
        }
        k = k + 1;
    }
    assert(is_run(*router, *t, window, requests, outcomes, states));
    rep
}

} // verus!
