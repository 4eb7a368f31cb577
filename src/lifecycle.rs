//! The call lifecycle of one replication: admission against the ledger, a
//! ring of the last `n` calls, and release of a call's capacity when its
//! slot is written again.

use vstd::prelude::*;
use crate::ledger::{is_link_path, link_used, usage, Ledger};
use crate::topology::Topology;

verus! {

/// One request as it is remembered: whether it was admitted, and the path
/// it holds (empty when it was not admitted).
pub struct CallRecord {
    pub admitted: bool,
    pub path: Vec<usize>,
}

impl CallRecord {
    pub open spec fn view(&self) -> (bool, Seq<usize>) {
        (self.admitted, self.path@)
    }
}

/// Units that the call `c` holds on the link between `i` and `j`.
pub open spec fn holding(c: (bool, Seq<usize>), i: int, j: int) -> int {
    if c.0 {
        usage(c.1, i, j)
    } else {
        0
    }
}

/// Units that the calls in `cs` hold together on the link between `i` and `j`.
pub open spec fn held(cs: Seq<(bool, Seq<usize>)>, i: int, j: int) -> int
    decreases cs.len(),
{
    if cs.len() == 0 {
        0
    } else {
        held(cs.drop_last(), i, j) + holding(cs.last(), i, j)
    }
}

pub proof fn lemma_held_nonneg(cs: Seq<(bool, Seq<usize>)>, i: int, j: int)
    ensures
        held(cs, i, j) >= 0,
    decreases cs.len(),
{
    if cs.len() > 0 {
        lemma_held_nonneg(cs.drop_last(), i, j);
    }
}

/// Replacing one call changes the units held by what the old and the new
/// call hold.
pub proof fn lemma_held_update(cs: Seq<(bool, Seq<usize>)>, k: int, c: (bool, Seq<usize>), i: int, j: int)
    requires
        0 <= k < cs.len(),
    ensures
        held(cs.update(k, c), i, j) == held(cs, i, j) - holding(cs[k], i, j) + holding(c, i, j),
    decreases cs.len(),
{
    let u = cs.update(k, c);
    if k == cs.len() - 1 {
        assert(u.drop_last() =~= cs.drop_last());
    } else {
        assert(u.drop_last() =~= cs.drop_last().update(k, c));
        lemma_held_update(cs.drop_last(), k, c, i, j);
    }
}

/// The state of one replication.
pub struct Replication {
    pub ledger: Ledger,
    /// Number of slots of the ring: how many requests a call is held for.
    pub window: usize,
    /// Slot that the next request writes once the ring is full.
    pub next: usize,
    pub records: Vec<CallRecord>,
    pub attempts: u64,
    pub successes: u64,
}

impl Replication {
    /// The calls in the ring, slot by slot.
    pub open spec fn calls(&self) -> Seq<(bool, Seq<usize>)> {
        self.records@.map_values(|r: CallRecord| r@)
    }

    /// The calls in the ring after the record `c` has been written.
    pub open spec fn calls_after_write(&self, c: (bool, Seq<usize>)) -> Seq<(bool, Seq<usize>)> {
        if self.calls().len() < self.window {
            self.calls().push(c)
        } else {
            self.calls().update(self.next as int, c)
        }
    }

    pub open spec fn wf(&self, t: Topology) -> bool {
        &&& self.ledger.wf(t)
        &&& self.window >= 1
        &&& self.next < self.window
        &&& self.calls().len() <= self.window
        &&& self.calls().len() < self.window ==> self.next == self.calls().len()
        &&& forall|k: int| 0 <= k < self.calls().len() ==> is_link_path(t, (#[trigger] self.calls()[k]).1)
        &&& forall|k: int| 0 <= k < self.calls().len() && !(#[trigger] self.calls()[k]).0 ==> self.calls()[k].1.len() == 0
        &&& forall|i: int, j: int|
            #![trigger self.ledger.avail()[i][j]]
            0 <= i < t.node_count && 0 <= j < t.node_count && t.cap()[i][j] >= 0 ==> self.ledger.avail()[i][j]
                == t.cap()[i][j] - held(self.calls(), i, j)
        &&& self.successes <= self.attempts
    }

    /// A fresh replication: all capacity free, no call in the ring.
    pub fn new(t: &Topology, window: usize) -> (r: Replication)
        requires
            t.wf(),
            window >= 1,
        ensures
            r.wf(*t),
            r.window == window,
            r.next == 0,
            r.calls().len() == 0,
            r.ledger.avail() == t.cap(),
            r.attempts == 0,
            r.successes == 0,
    {
        let r = Replication {
            ledger: Ledger::reset_ledger(t),
            window,
            next: 0,
            records: Vec::new(),
            attempts: 0,
            successes: 0,
        };
        assert(r.calls().len() == 0);
        r
    }

    /// Inserts `record` into the ring, releasing the capacity of the call
    /// in the slot it replaces; the ledger already holds `record`'s units.
    #[verifier::rlimit(60)]
    fn write_record(&mut self, t: &Topology, record: CallRecord)
        requires
            t.wf(),
            old(self).ledger.wf(*t),
            old(self).window >= 1,
            old(self).next < old(self).window,
            old(self).calls().len() <= old(self).window,
            old(self).calls().len() < old(self).window ==> old(self).next == old(self).calls().len(),
            forall|k: int| 0 <= k < old(self).calls().len() ==> is_link_path(*t, (#[trigger] old(self).calls()[k]).1),
            forall|k: int|
                0 <= k < old(self).calls().len() && !(#[trigger] old(self).calls()[k]).0 ==> old(self).calls()[k].1.len() == 0,
            is_link_path(*t, record.path@),
            !record.admitted ==> record.path@.len() == 0,
            forall|i: int, j: int|
                #![trigger old(self).ledger.avail()[i][j]]
                0 <= i < t.node_count && 0 <= j < t.node_count && t.cap()[i][j] >= 0 ==> old(self).ledger.avail()[i][j]
                    == t.cap()[i][j] - held(old(self).calls(), i, j) - holding(record@, i, j),
            old(self).successes <= old(self).attempts,
        ensures
            final(self).wf(*t),
            final(self).window == old(self).window,
            final(self).calls() == old(self).calls_after_write(record@),
            final(self).next == (old(self).next + 1) % (old(self).window as int),
            final(self).attempts == old(self).attempts,
            final(self).successes == old(self).successes,
    {
        let ghost cs0 = self.calls();
        let ghost c = record@;
        if self.records.len() < self.window {
            self.records.push(record);
            assert(self.calls() =~= cs0.push(c));
            assert forall|i: int, j: int|
                0 <= i < t.node_count && 0 <= j < t.node_count && t.cap()[i][j] >= 0 implies #[trigger] self.ledger.avail()[i][j]
                == t.cap()[i][j] - held(self.calls(), i, j) by {
                assert(self.calls().drop_last() =~= cs0);
            }
        } else {
            let at = self.next;
            let evicted = self.records.remove(at);
            assert(cs0[at as int] == evicted@);
            if evicted.admitted {
                let ghost l1 = self.ledger;
                assert forall|i: int, j: int|
                    0 <= i < t.node_count && 0 <= j < t.node_count && t.cap()[i][j] >= 0 && link_used(evicted.path@, i, j)
                        implies #[trigger] l1.avail()[i][j] < t.cap()[i][j] by {
                    lemma_held_update(cs0, at as int, (false, Seq::<usize>::empty()), i, j);
                    lemma_held_nonneg(cs0.update(at as int, (false, Seq::<usize>::empty())), i, j);
                    assert(holding(evicted@, i, j) == 1);
                    assert(holding(c, i, j) >= 0);
                }
                self.ledger.release(t, &evicted.path);
                assert forall|i: int, j: int|
                    0 <= i < t.node_count && 0 <= j < t.node_count && t.cap()[i][j] >= 0 implies #[trigger] self.ledger.avail()[i][j]
                    == t.cap()[i][j] - held(cs0, i, j) + holding(evicted@, i, j) - holding(c, i, j) by {
                    if link_used(evicted.path@, i, j) {
                        assert(l1.avail()[i][j] < t.cap()[i][j]);
                    }
                }
            } else {
                assert forall|i: int, j: int|
                    0 <= i < t.node_count && 0 <= j < t.node_count && t.cap()[i][j] >= 0 implies #[trigger] self.ledger.avail()[i][j]
                    == t.cap()[i][j] - held(cs0, i, j) + holding(evicted@, i, j) - holding(c, i, j) by {
                }
            }
            self.records.insert(at, record);
            assert(self.calls() =~= cs0.update(at as int, c));
            assert forall|i: int, j: int|
                0 <= i < t.node_count && 0 <= j < t.node_count && t.cap()[i][j] >= 0 implies #[trigger] self.ledger.avail()[i][j]
                == t.cap()[i][j] - held(self.calls(), i, j) by {
                lemma_held_update(cs0, at as int, c, i, j);
            }
        }
        let ghost w = self.window as int;
        let ghost x = self.next as int + 1;
        assert(x % w == (if x == w { 0 } else { x })) by (nonlinear_arith)
            requires
                1 <= x <= w,
        {
            if x < w {
                vstd::arithmetic::div_mod::lemma_small_mod(x as nat, w as nat);
            }
        }
        self.next = if self.next + 1 == self.window {
            0
        } else {
            self.next + 1
        };
        assert forall|k: int| 0 <= k < self.calls().len() implies is_link_path(*t, (#[trigger] self.calls()[k]).1) && (!self.calls()[k].0
            ==> self.calls()[k].1.len() == 0) by {
            if cs0.len() < self.window && k == cs0.len() {
            } else if cs0.len() == self.window && k == old(self).next {
            } else {
                assert(self.calls()[k] == cs0[k]);
            }
        }
    }

    /// Decides on one request whose route is `route`: admits it when there
    /// is a route and every link along it has a free unit, taking those
    /// units; then writes its record into the ring, first releasing the
    /// capacity of the call it replaces.
    pub fn process_route(&mut self, t: &Topology, route: Option<Vec<usize>>) -> (admitted: bool)
        requires
            t.wf(),
            old(self).wf(*t),
            old(self).attempts < u64::MAX,
            route matches Some(p) ==> is_link_path(*t, p@),
        ensures
            final(self).wf(*t),
            final(self).window == old(self).window,
            final(self).next == (old(self).next + 1) % (old(self).window as int),
            admitted == (route matches Some(p) && old(self).ledger.can_carry(p@)),
            final(self).calls() == old(self).calls_after_write(
                if admitted {
                    (true, route.unwrap()@)
                } else {
                    (false, Seq::<usize>::empty())
                },
            ),
            final(self).attempts == old(self).attempts + 1,
            final(self).successes == old(self).successes + (if admitted {
                1int
            } else {
                0int
            }),
    {
        let ghost l0 = self.ledger;
        let record = match route {
            Some(p) => {
                if self.ledger.has_capacity(t, &p) {
                    self.ledger.reserve(t, &p);
                    CallRecord { admitted: true, path: p }
                } else {
                    CallRecord { admitted: false, path: Vec::new() }
                }
            },
            None => CallRecord { admitted: false, path: Vec::new() },
        };
        let admitted = record.admitted;
        assert(record.path@.no_duplicates());
        assert forall|i: int, j: int|
            0 <= i < t.node_count && 0 <= j < t.node_count && t.cap()[i][j] >= 0 implies #[trigger] self.ledger.avail()[i][j]
            == t.cap()[i][j] - held(self.calls(), i, j) - holding(record@, i, j) by {
            assert(l0.avail()[i][j] == t.cap()[i][j] - held(self.calls(), i, j));
        }
        self.write_record(t, record);
        self.attempts = self.attempts + 1;
        if admitted {
            self.successes = self.successes + 1;
        }
        admitted
    }

    /// Ends the replication: releases the capacity of every admitted call
    /// still in the ring and empties it.
    pub fn drain(&mut self, t: &Topology)
        requires
            t.wf(),
            old(self).wf(*t),
        ensures
            final(self).wf(*t),
            final(self).window == old(self).window,
            final(self).calls().len() == 0,
            final(self).ledger.avail() == t.cap(),
            final(self).attempts == old(self).attempts,
            final(self).successes == old(self).successes,
    {
        while self.records.len() > 0
            invariant
                t.wf(),
                self.wf(*t),
                self.window == old(self).window,
                self.attempts == old(self).attempts,
                self.successes == old(self).successes,
            decreases self.records@.len(),
        {
            let ghost cs0 = self.calls();
            let last = self.records.pop().unwrap();
            assert(self.calls() =~= cs0.drop_last());
            assert(cs0.last() == last@);
            if last.admitted {
                let ghost l1 = self.ledger;
                assert forall|i: int, j: int|
                    0 <= i < t.node_count && 0 <= j < t.node_count && t.cap()[i][j] >= 0 implies #[trigger] l1.avail()[i][j]
                    == t.cap()[i][j] - held(self.calls(), i, j) - holding(last@, i, j) by {
                }
                assert forall|i: int, j: int|
                    0 <= i < t.node_count && 0 <= j < t.node_count && t.cap()[i][j] >= 0 && link_used(last.path@, i, j)
                        implies #[trigger] l1.avail()[i][j] < t.cap()[i][j] by {
                    lemma_held_nonneg(self.calls(), i, j);
                }
                assert(cs0.len() - 1 < cs0.len());
                assert(is_link_path(*t, cs0[cs0.len() - 1].1));
                self.ledger.release(t, &last.path);
                assert forall|i: int, j: int|
                    0 <= i < t.node_count && 0 <= j < t.node_count && t.cap()[i][j] >= 0 implies #[trigger] self.ledger.avail()[i][j]
                    == t.cap()[i][j] - held(self.calls(), i, j) by {
                    if link_used(last.path@, i, j) {
                        assert(l1.avail()[i][j] < t.cap()[i][j]);
                    }
                }
            }
            self.next = self.records.len();
            assert forall|k: int| 0 <= k < self.calls().len() implies is_link_path(*t, (#[trigger] self.calls()[k]).1) && (!self.calls()[k].0
                ==> self.calls()[k].1.len() == 0) by {
                assert(self.calls()[k] == cs0[k]);
            }
        }
        assert(self.calls().len() == 0);
        assert forall|i: int| 0 <= i < t.node_count implies #[trigger] self.ledger.avail()[i] =~= t.cap()[i] by {
            assert forall|j: int| 0 <= j < t.node_count implies self.ledger.avail()[i][j] == t.cap()[i][j] by {
                if t.cap()[i][j] >= 0 {
                    assert(self.ledger.avail()[i][j] == t.cap()[i][j] - held(self.calls(), i, j));
                }
            }
        }
        assert(self.ledger.avail() =~= t.cap());
    }
}

/// In every state of a replication the ledger is symmetric, and on every
/// link the free capacity lies between zero and the total capacity.
pub proof fn lemma_ledger_symmetric_and_bounded(r: Replication, t: Topology)
    requires
        t.wf(),
        r.wf(t),
    ensures
        forall|i: int, j: int|
            0 <= i < t.node_count && 0 <= j < t.node_count ==> #[trigger] r.ledger.avail()[i][j] == r.ledger.avail()[j][i],
        forall|i: int, j: int|
            0 <= i < t.node_count && 0 <= j < t.node_count && t.cap()[i][j] >= 0 ==> 0 <= #[trigger] r.ledger.avail()[i][j]
                <= t.cap()[i][j],
{
}

/// Capacity is conserved: on every link the units taken and not yet
/// returned are exactly those held by the admitted calls in the ring, so once
/// the ring is empty every unit taken has been returned.
pub proof fn lemma_capacity_conserved(r: Replication, t: Topology)
    requires
        t.wf(),
        r.wf(t),
    ensures
        forall|i: int, j: int|
            0 <= i < t.node_count && 0 <= j < t.node_count && t.cap()[i][j] >= 0 ==> t.cap()[i][j] - #[trigger] r.ledger.avail()[i][j]
                == held(r.calls(), i, j),
        r.calls().len() == 0 ==> r.ledger.avail() == t.cap(),
{
    if r.calls().len() == 0 {
        assert forall|i: int| 0 <= i < t.node_count implies #[trigger] r.ledger.avail()[i] =~= t.cap()[i] by {
            assert forall|j: int| 0 <= j < t.node_count implies r.ledger.avail()[i][j] == t.cap()[i][j] by {
                if t.cap()[i][j] >= 0 {
                    assert(r.ledger.avail()[i][j] == t.cap()[i][j] - held(r.calls(), i, j));
                }
            }
        }
        assert(r.ledger.avail() =~= t.cap());
    }
}

} // verus!
