//! Routes computed once for every pair of nodes from the total capacities
//! of the topology.

use vstd::prelude::*;
use crate::matrix::{is_square, set_entry, view2};
use crate::paths::{is_route, is_shortest_route, shortest_path};
use crate::topology::Topology;
use crate::widest::{find_maximum_capacity_path, has_positive_entry, is_widest_route, no_positive_entry};

verus! {

/// A route, or none, for every ordered pair of nodes.
pub struct AllPathsInfo {
    pub node_count: usize,
    pub paths: Vec<Vec<Option<Vec<usize>>>>,
}

/// `e` is what the widest-route table holds for `(s, d)`: nothing from a
/// node to itself or when no link has positive capacity, else a
/// maximum-capacity-then-shortest route over the links of `t`, or nothing
/// when no route exists.
pub open spec fn widest_entry_ok(t: Topology, e: Option<Vec<usize>>, s: int, d: int) -> bool {
    if s == d || no_positive_entry(t.node_count as nat, t.cap()) {
        e is None
    } else {
        match e {
            Some(p) => is_widest_route(t.node_count as nat, t.dist(), t.cap(), 0, p@, s, d),
            None => forall|q: Seq<usize>| !is_route(t.node_count as nat, t.cap(), 0, q, s, d),
        }
    }
}

/// `e` is what the shortest-route table holds for `(s, d)`: nothing from a
/// node to itself or when no link has positive capacity, else a shortest
/// route over the links of `t`, or nothing when no route exists.
pub open spec fn shortest_entry_ok(t: Topology, e: Option<Vec<usize>>, s: int, d: int) -> bool {
    if s == d || no_positive_entry(t.node_count as nat, t.cap()) {
        e is None
    } else {
        match e {
            Some(p) => is_shortest_route(t.node_count as nat, t.dist(), t.cap(), 0, p@, s, d),
            None => forall|q: Seq<usize>| !is_route(t.node_count as nat, t.cap(), 0, q, s, d),
        }
    }
}

impl AllPathsInfo {
    pub open spec fn entry(&self, s: int, d: int) -> Option<Vec<usize>> {
        view2(self.paths@)[s][d]
    }

    pub open spec fn wf(&self) -> bool {
        is_square(view2(self.paths@), self.node_count as nat)
    }

    /// A table of `node_count` nodes that holds no route.
    pub fn new(node_count: usize) -> (a: AllPathsInfo)
        ensures
            a.wf(),
            a.node_count == node_count,
            forall|s: int, d: int| 0 <= s < node_count && 0 <= d < node_count ==> a.entry(s, d) is None,
    {
        let mut paths: Vec<Vec<Option<Vec<usize>>>> = Vec::new();
        let mut i: usize = 0;
        while i < node_count
            invariant
                i <= node_count,
                paths@.len() == i,
                forall|k: int, d: int| 0 <= k < i && 0 <= d < node_count ==> (#[trigger] view2(paths@)[k][d]) is None,
                forall|k: int| 0 <= k < i ==> (#[trigger] view2(paths@)[k]).len() == node_count,
            decreases node_count - i,
        {
            let mut row: Vec<Option<Vec<usize>>> = Vec::new();
            let mut j: usize = 0;
            while j < node_count
                invariant
                    j <= node_count,
                    row@.len() == j,
                    forall|d: int| 0 <= d < j ==> (#[trigger] row@[d]) is None,
                decreases node_count - j,
            {
                row.push(None);
                j = j + 1;
            }
            let ghost before = paths@;
            paths.push(row);
            assert forall|k: int| 0 <= k < i implies view2(paths@)[k] == view2(before)[k] && (#[trigger] view2(paths@)[k]).len() == node_count by {
                assert(paths@[k] == before[k]);
                assert(view2(before)[k].len() == node_count);
            }
            assert(view2(paths@)[i as int] == row@);
            assert(row@.len() == node_count);
            assert forall|k: int, d: int| 0 <= k <= i && 0 <= d < node_count implies (#[trigger] view2(paths@)[k][d]) is None by {
                if k < i {
                    assert(view2(before)[k][d] is None);
                } else {
                    assert(row@[d] is None);
                }
            }
            i = i + 1;
        }
        AllPathsInfo { node_count, paths }
    }

    /// The route stored for `(source, dest)`.
    pub fn get_path(&self, source: usize, dest: usize) -> (r: &Option<Vec<usize>>)
        requires
            self.wf(),
            source < self.node_count,
            dest < self.node_count,
        ensures
            *r == self.entry(source as int, dest as int),
    {
        &self.paths[source][dest]
    }
}

/// The table of maximum-capacity-then-shortest routes over all links of
/// `t`, judged by their total capacity.
pub fn calculate_all_paths(t: &Topology) -> (a: AllPathsInfo)
    requires
        t.wf(),
    ensures
        a.wf(),
        a.node_count == t.node_count,
        forall|s: int, d: int|
            0 <= s < t.node_count && 0 <= d < t.node_count ==> widest_entry_ok(*t, #[trigger] a.entry(s, d), s, d),
{
    let n = t.node_count;
    let mut all_paths = AllPathsInfo::new(n);
    if !has_positive_entry(t, &t.capacity) {
        return all_paths;
    }
    let mut source: usize = 0;
    while source < n
        invariant
            t.wf(),
            n == t.node_count,
            source <= n,
            all_paths.wf(),
            all_paths.node_count == n,
            !no_positive_entry(n as nat, t.cap()),
            forall|s: int, d: int|
                0 <= s < source && 0 <= d < n ==> widest_entry_ok(*t, #[trigger] all_paths.entry(s, d), s, d),
            forall|s: int, d: int| source <= s < n && 0 <= d < n ==> (#[trigger] all_paths.entry(s, d)) is None,
        decreases n - source,
    {
        let mut dest: usize = 0;
        while dest < n
            invariant
                t.wf(),
                n == t.node_count,
                source < n,
                dest <= n,
                all_paths.wf(),
                all_paths.node_count == n,
                !no_positive_entry(n as nat, t.cap()),
                forall|s: int, d: int|
                    (0 <= s < source && 0 <= d < n || s == source && 0 <= d < dest) ==> widest_entry_ok(
                        *t,
                        #[trigger] all_paths.entry(s, d),
                        s,
                        d,
                    ),
                forall|s: int, d: int|
                    (source < s < n && 0 <= d < n || s == source && dest <= d < n) ==> (#[trigger] all_paths.entry(s, d)) is None,
            decreases n - dest,
        {
            if source != dest {
                let found = find_maximum_capacity_path(t, &t.capacity, 0, source, dest);
                let ghost before = all_paths;
                set_entry(&mut all_paths.paths, source, dest, found);
                assert forall|s: int, d: int| 0 <= s < n && 0 <= d < n implies #[trigger] all_paths.entry(s, d) == (if s == source
                    && d == dest {
                    found
                } else {
                    before.entry(s, d)
                }) by {
                    assert(before.entry(s, d) == before.entry(s, d));
                }
            }
            dest = dest + 1;
        }
        source = source + 1;
    }
    all_paths
}

/// The table of shortest routes over all links of `t`, whatever their
/// capacity.
pub fn calculate_shortest_paths(t: &Topology) -> (a: AllPathsInfo)
    requires
        t.wf(),
    ensures
        a.wf(),
        a.node_count == t.node_count,
        forall|s: int, d: int|
            0 <= s < t.node_count && 0 <= d < t.node_count ==> shortest_entry_ok(*t, #[trigger] a.entry(s, d), s, d),
{
    let n = t.node_count;
    let mut all_paths = AllPathsInfo::new(n);
    if !has_positive_entry(t, &t.capacity) {
        return all_paths;
    }
    let mut source: usize = 0;
    while source < n
        invariant
            t.wf(),
            n == t.node_count,
            source <= n,
            all_paths.wf(),
            all_paths.node_count == n,
            !no_positive_entry(n as nat, t.cap()),
            forall|s: int, d: int|
                0 <= s < source && 0 <= d < n ==> shortest_entry_ok(*t, #[trigger] all_paths.entry(s, d), s, d),
            forall|s: int, d: int| source <= s < n && 0 <= d < n ==> (#[trigger] all_paths.entry(s, d)) is None,
        decreases n - source,
    {
        let mut dest: usize = 0;
        while dest < n
            invariant
                t.wf(),
                n == t.node_count,
                source < n,
                dest <= n,
                all_paths.wf(),
                all_paths.node_count == n,
                !no_positive_entry(n as nat, t.cap()),
                forall|s: int, d: int|
                    (0 <= s < source && 0 <= d < n || s == source && 0 <= d < dest) ==> shortest_entry_ok(
                        *t,
                        #[trigger] all_paths.entry(s, d),
                        s,
                        d,
                    ),
                forall|s: int, d: int|
                    (source < s < n && 0 <= d < n || s == source && dest <= d < n) ==> (#[trigger] all_paths.entry(s, d)) is None,
            decreases n - dest,
        {
            if source != dest {
                let found = shortest_path(t, &t.capacity, 0, source, dest);
                let ghost before = all_paths;
                set_entry(&mut all_paths.paths, source, dest, found);
                assert forall|s: int, d: int| 0 <= s < n && 0 <= d < n implies #[trigger] all_paths.entry(s, d) == (if s == source
                    && d == dest {
                    found
                } else {
                    before.entry(s, d)
                }) by {
                    assert(before.entry(s, d) == before.entry(s, d));
                }
            }
            dest = dest + 1;
        }
        source = source + 1;
    }
    all_paths
}

} // verus!
