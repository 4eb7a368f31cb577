//! The network: a fixed set of nodes with symmetric links, each with a
//! distance and a total capacity.

use vstd::prelude::*;
use crate::matrix::{filled, is_square, set_entry, view2};

verus! {

/// Largest number of nodes a topology may have.
pub const MAX_NODES: usize = 1024;

/// Largest distance of a single link.
pub const MAX_DISTANCE: u64 = 0x1_0000_0000;

/// Largest total capacity of a single link.
pub const MAX_CAPACITY: u64 = 0x1_0000_0000;

/// Capacity entry that marks a pair of nodes without a link.
pub const NO_LINK: i64 = -1;

/// Why a link cannot be added to a topology.
#[derive(Debug, Clone, Copy, PartialEq, Eq, Structural)]
pub enum TopologyError {
    NodeOutOfRange,
    SelfLoop,
    InvalidDistance,
    InvalidCapacity,
}

/// The distance and capacity matrices of `n` nodes are those of a
/// well-formed network: symmetric, with no link from a node to itself,
/// a positive bounded distance on every link, and `NO_LINK` capacity and
/// distance zero wherever no link stands.
pub open spec fn links_ok(n: nat, dist: Seq<Seq<u64>>, cap: Seq<Seq<i64>>) -> bool {
    &&& is_square(dist, n)
    &&& is_square(cap, n)
    &&& forall|i: int, j: int|
        #![trigger cap[i][j]]
        #![trigger dist[i][j]]
        0 <= i < n && 0 <= j < n ==> {
            &&& cap[i][j] == cap[j][i]
            &&& dist[i][j] == dist[j][i]
            &&& NO_LINK <= cap[i][j] <= MAX_CAPACITY
            &&& (i == j ==> cap[i][j] == NO_LINK)
            &&& (cap[i][j] >= 0 ==> 1 <= dist[i][j] <= MAX_DISTANCE)
            &&& (cap[i][j] < 0 ==> dist[i][j] == 0)
        }
}

/// Whether `add_link(a, b, distance, capacity)` accepts its arguments on a
/// topology of `n` nodes.
pub open spec fn link_args_ok(n: nat, a: nat, b: nat, distance: nat, capacity: nat) -> bool {
    &&& a < n
    &&& b < n
    &&& a != b
    &&& 1 <= distance <= MAX_DISTANCE
    &&& capacity <= MAX_CAPACITY
}

/// The error that `add_link(a, b, distance, capacity)` returns on a
/// topology of `n` nodes when it refuses its arguments.
pub open spec fn link_error(n: nat, a: nat, b: nat, distance: nat) -> TopologyError {
    if a >= n || b >= n {
        TopologyError::NodeOutOfRange
    } else if a == b {
        TopologyError::SelfLoop
    } else if distance < 1 || distance > MAX_DISTANCE {
        TopologyError::InvalidDistance
    } else {
        TopologyError::InvalidCapacity
    }
}

/// A link as `(node1, node2, distance, capacity)`.
pub type LinkSpec = (usize, usize, u64, u64);

/// `e` joins `i` and `j`, in either direction.
pub open spec fn joins(e: LinkSpec, i: int, j: int) -> bool {
    (e.0 == i && e.1 == j) || (e.0 == j && e.1 == i)
}

/// Distance and capacity of the last link in `edges` that joins `i` and
/// `j`, if any.
pub open spec fn last_link(edges: Seq<LinkSpec>, i: int, j: int) -> Option<(u64, u64)>
    decreases edges.len(),
{
    if edges.len() == 0 {
        None
    } else if joins(edges.last(), i, j) {
        Some((edges.last().2, edges.last().3))
    } else {
        last_link(edges.drop_last(), i, j)
    }
}

/// `add_link` accepts the link `e` on a topology of `n` nodes.
pub open spec fn link_ok(n: nat, e: LinkSpec) -> bool {
    link_args_ok(n, e.0 as nat, e.1 as nat, e.2 as nat, e.3 as nat)
}

/// The network on which calls are routed.
pub struct Topology {
    pub node_count: usize,
    /// `distance[i][j]`: length of the link between `i` and `j`, 0 where none.
    pub distance: Vec<Vec<u64>>,
    /// `capacity[i][j]`: total capacity of the link, `NO_LINK` where none.
    pub capacity: Vec<Vec<i64>>,
}

impl Topology {
    pub open spec fn dist(&self) -> Seq<Seq<u64>> {
        view2(self.distance@)
    }

    pub open spec fn cap(&self) -> Seq<Seq<i64>> {
        view2(self.capacity@)
    }

    pub open spec fn wf(&self) -> bool {
        &&& self.node_count <= MAX_NODES
        &&& links_ok(self.node_count as nat, self.dist(), self.cap())
    }

    /// A topology of `node_count` nodes and no links.
    pub fn new(node_count: usize) -> (t: Topology)
        requires
            node_count <= MAX_NODES,
        ensures
            t.wf(),
            t.node_count == node_count,
            forall|i: int, j: int|
                0 <= i < node_count && 0 <= j < node_count ==> t.cap()[i][j] == NO_LINK
                    && t.dist()[i][j] == 0,
    {
        Topology {
            node_count,
            distance: filled(node_count, 0u64),
            capacity: filled(node_count, NO_LINK),
        }
    }

    /// Adds (or overwrites) the link between `a` and `b`, in both directions.
    pub fn add_link(&mut self, a: usize, b: usize, distance: u64, capacity: u64) -> (r: Result<(), TopologyError>)
        requires
            old(self).wf(),
        ensures
            final(self).wf(),
            final(self).node_count == old(self).node_count,
            r is Ok <==> link_args_ok(old(self).node_count as nat, a as nat, b as nat, distance as nat, capacity as nat),
            r == Err::<(), TopologyError>(TopologyError::NodeOutOfRange) <==> (a >= old(self).node_count || b >= old(self).node_count),
            r == Err::<(), TopologyError>(TopologyError::SelfLoop) <==> (a < old(self).node_count && b < old(self).node_count && a == b),
            r == Err::<(), TopologyError>(TopologyError::InvalidDistance) <==> (a < old(self).node_count && b < old(self).node_count && a != b
                && (distance < 1 || distance > MAX_DISTANCE)),
            r is Err ==> *final(self) == *old(self),
            r is Err ==> r == Err::<(), TopologyError>(link_error(old(self).node_count as nat, a as nat, b as nat, distance as nat)),
            r is Ok ==> forall|i: int, j: int|
                #![trigger final(self).cap()[i][j]]
                #![trigger final(self).dist()[i][j]]
                0 <= i < old(self).node_count && 0 <= j < old(self).node_count ==> {
                    let on = (i == a && j == b) || (i == b && j == a);
                    &&& final(self).cap()[i][j] == (if on { capacity as i64 } else { old(self).cap()[i][j] })
                    &&& final(self).dist()[i][j] == (if on { distance } else { old(self).dist()[i][j] })
                },
    {
        let n = self.node_count;
        if a >= n || b >= n {
            return Err(TopologyError::NodeOutOfRange);
        }
        if a == b {
            return Err(TopologyError::SelfLoop);
        }
        if distance < 1 || distance > MAX_DISTANCE {
            return Err(TopologyError::InvalidDistance);
        }
        if capacity > MAX_CAPACITY {
            return Err(TopologyError::InvalidCapacity);
        }
        let c = capacity as i64;
        set_entry(&mut self.distance, a, b, distance);
        set_entry(&mut self.distance, b, a, distance);
        set_entry(&mut self.capacity, a, b, c);
        set_entry(&mut self.capacity, b, a, c);
        Ok(())
    }

    /// The topology of `node_count` nodes with the links `edges`, added in
    /// order, so that a later link between the same two nodes replaces an
    /// earlier one; the error of the first link that cannot be added.
    pub fn load(node_count: usize, edges: &Vec<LinkSpec>) -> (r: Result<Topology, TopologyError>)
        requires
            node_count <= MAX_NODES,
        ensures
            r is Ok <==> forall|k: int| 0 <= k < edges@.len() ==> link_ok(node_count as nat, #[trigger] edges@[k]),
            r matches Ok(t) ==> {
                &&& t.wf()
                &&& t.node_count == node_count
                &&& forall|i: int, j: int|
                    #![trigger t.cap()[i][j]]
                    #![trigger t.dist()[i][j]]
                    0 <= i < node_count && 0 <= j < node_count ==> match last_link(edges@, i, j) {
                        Some(l) => t.dist()[i][j] == l.0 && t.cap()[i][j] == l.1 as i64,
                        None => t.dist()[i][j] == 0 && t.cap()[i][j] == NO_LINK,
                    }
            },
            r matches Err(e) ==> exists|k: int|
                0 <= k < edges@.len() && !link_ok(node_count as nat, #[trigger] edges@[k]) && (forall|m: int|
                    0 <= m < k ==> link_ok(node_count as nat, #[trigger] edges@[m])) && e == link_error(
                    node_count as nat,
                    edges@[k].0 as nat,
                    edges@[k].1 as nat,
                    edges@[k].2 as nat,
                ),
    {
        let mut t = Topology::new(node_count);
        let mut k: usize = 0;
        while k < edges.len()
            invariant
                t.wf(),
                t.node_count == node_count,
                k <= edges@.len(),
                forall|m: int| 0 <= m < k ==> link_ok(node_count as nat, #[trigger] edges@[m]),
                forall|i: int, j: int|
                    #![trigger t.cap()[i][j]]
                    #![trigger t.dist()[i][j]]
                    0 <= i < node_count && 0 <= j < node_count ==> match last_link(edges@.take(k as int), i, j) {
                        Some(l) => t.dist()[i][j] == l.0 && t.cap()[i][j] == l.1 as i64,
                        None => t.dist()[i][j] == 0 && t.cap()[i][j] == NO_LINK,
                    },
            decreases edges@.len() - k,
        {
            let (a, b, distance, capacity) = edges[k];
            let ghost before = t;
            match t.add_link(a, b, distance, capacity) {
                Err(e) => {
                    assert(!link_ok(node_count as nat, edges@[k as int]));
                    return Err(e);
                },
                Ok(()) => {},
            }
            assert(edges@.take(k + 1).drop_last() =~= edges@.take(k as int));
            assert(edges@.take(k + 1).last() == edges@[k as int]);
            assert forall|i: int, j: int| 0 <= i < node_count && 0 <= j < node_count implies match last_link(edges@.take(k + 1), i, j) {
                Some(l) => t.dist()[i][j] == l.0 && #[trigger] t.cap()[i][j] == l.1 as i64,
                None => t.dist()[i][j] == 0 && t.cap()[i][j] == NO_LINK,
            } by {
                assert(before.cap()[i][j] == before.cap()[i][j]);
                assert(before.dist()[i][j] == before.dist()[i][j]);
            }
            k = k + 1;
        }
        assert(edges@.take(k as int) =~= edges@);
        Ok(t)
    }
}

} // verus!
