//! The capacity ledger: the capacity still free on every link during one
//! replication.

use vstd::prelude::*;
use crate::matrix::{copy_vec, is_square, set_entry, view2};
use crate::topology::{Topology, NO_LINK};

verus! {

/// The link between `i` and `j`, in either direction, is one of the links
/// along `p`.
pub open spec fn link_used(p: Seq<usize>, i: int, j: int) -> bool {
    exists|k: int|
        #![trigger p[k]]
        0 <= k < p.len() - 1 && ((p[k] == i && p[k + 1] == j) || (p[k] == j && p[k + 1] == i))
}

/// The same, among the first `m` links along `p`.
pub open spec fn link_used_before(p: Seq<usize>, m: int, i: int, j: int) -> bool {
    exists|k: int|
        #![trigger p[k]]
        0 <= k < m && ((p[k] == i && p[k + 1] == j) || (p[k] == j && p[k + 1] == i))
}

/// How many units a call along `p` holds on the link between `i` and `j`.
pub open spec fn usage(p: Seq<usize>, i: int, j: int) -> int {
    if link_used(p, i, j) {
        1
    } else {
        0
    }
}

/// `p` is a sequence of distinct nodes of `t`, each joined to the next by a
/// link of `t`.
pub open spec fn is_link_path(t: Topology, p: Seq<usize>) -> bool {
    &&& p.no_duplicates()
    &&& forall|k: int| 0 <= k < p.len() ==> (#[trigger] p[k]) < t.node_count
    &&& forall|k: int| #![trigger p[k]] 0 <= k < p.len() - 1 ==> t.cap()[p[k] as int][p[k + 1] as int] >= 0
}

/// Free capacity per link.
pub struct Ledger {
    pub available: Vec<Vec<i64>>,
}

impl Ledger {
    pub open spec fn avail(&self) -> Seq<Seq<i64>> {
        view2(self.available@)
    }

    /// Symmetric, `NO_LINK` where `t` has no link, and between zero and the
    /// total capacity on every link.
    pub open spec fn wf(&self, t: Topology) -> bool {
        &&& is_square(self.avail(), t.node_count as nat)
        &&& forall|i: int, j: int|
            #![trigger self.avail()[i][j]]
            0 <= i < t.node_count && 0 <= j < t.node_count ==> {
                &&& self.avail()[i][j] == self.avail()[j][i]
                &&& (t.cap()[i][j] < 0 ==> self.avail()[i][j] == NO_LINK)
                &&& (t.cap()[i][j] >= 0 ==> 0 <= self.avail()[i][j] <= t.cap()[i][j])
            }
    }

    /// Every link along `p` has at least one free unit.
    pub open spec fn can_carry(&self, p: Seq<usize>) -> bool {
        forall|k: int| #![trigger p[k]] 0 <= k < p.len() - 1 ==> self.avail()[p[k] as int][p[k + 1] as int] >= 1
    }

    /// A ledger with all the total capacity of `t` free.
    pub fn reset_ledger(t: &Topology) -> (l: Ledger)
        requires
            t.wf(),
        ensures
            l.wf(*t),
            l.avail() == t.cap(),
    {
        let mut available: Vec<Vec<i64>> = Vec::new();
        let mut i: usize = 0;
        while i < t.node_count
            invariant
                t.wf(),
                i <= t.node_count,
                available@.len() == i,
                forall|k: int| 0 <= k < i ==> (#[trigger] available@[k])@ == t.cap()[k],
            decreases t.node_count - i,
        {
            let row = copy_vec(&t.capacity[i]);
            available.push(row);
            i = i + 1;
        }
        let l = Ledger { available };
        assert(l.avail() =~= t.cap());
        l
    }

    /// Whether every link along `p` has at least one free unit.
    pub fn has_capacity(&self, t: &Topology, p: &Vec<usize>) -> (r: bool)
        requires
            self.wf(*t),
            is_link_path(*t, p@),
        ensures
            r == self.can_carry(p@),
    {
        let mut k: usize = 0;
        if p.len() < 2 {
            return true;
        }
        while k < p.len() - 1
            invariant
                self.wf(*t),
                is_link_path(*t, p@),
                p@.len() >= 2,
                k + 1 <= p@.len(),
                forall|m: int| #![trigger p@[m]] 0 <= m < k ==> self.avail()[p@[m] as int][p@[m + 1] as int] >= 1,
            decreases p@.len() - k,
        {
            let a = p[k];
            let b = p[k + 1];
            assert(self.avail()[a as int].len() == t.node_count);
            if self.available[a][b] < 1 {
                assert(p@[k as int] == a);
                return false;
            }
            k = k + 1;
        }
        true
    }

    /// Takes one unit on every link along `p`, in both directions.
    pub fn reserve(&mut self, t: &Topology, p: &Vec<usize>)
        requires
            t.wf(),
            old(self).wf(*t),
            is_link_path(*t, p@),
            old(self).can_carry(p@),
        ensures
            final(self).wf(*t),
            forall|i: int, j: int|
                0 <= i < t.node_count && 0 <= j < t.node_count ==> #[trigger] final(self).avail()[i][j] == old(self).avail()[i][j]
                    - usage(p@, i, j),
    {
        let ghost a0 = self.avail();
        if p.len() < 2 {
            assert forall|i: int, j: int| 0 <= i < t.node_count && 0 <= j < t.node_count implies !link_used(p@, i, j) by {
            }
            return;
        }
        let mut k: usize = 0;
        while k < p.len() - 1
            invariant
                is_link_path(*t, p@),
                p@.len() >= 2,
                k + 1 <= p@.len(),
                is_square(self.avail(), t.node_count as nat),
                old(self).can_carry(p@),
                a0 == old(self).avail(),
                old(self).wf(*t),
                forall|i: int, j: int|
                    0 <= i < t.node_count && 0 <= j < t.node_count ==> #[trigger] self.avail()[i][j] == a0[i][j] - (
                    if link_used_before(p@, k as int, i, j) {
                        1int
                    } else {
                        0int
                    }),
            decreases p@.len() - k,
        {
            let a = p[k];
            let b = p[k + 1];
            let ghost before = self.avail();
            assert(p@[k as int] == a && p@[k + 1] == b);
            assert(a != b);
            assert(!link_used_before(p@, k as int, a as int, b as int)) by {
                if link_used_before(p@, k as int, a as int, b as int) {
                    let m = choose|m: int|
                        #![trigger p@[m]]
                        0 <= m < k && ((p@[m] == a && p@[m + 1] == b) || (p@[m] == b && p@[m + 1] == a));
                    assert(p@[m] == p@[m]);
                }
            }
            assert(!link_used_before(p@, k as int, b as int, a as int));
            assert(self.avail()[a as int].len() == t.node_count);
            assert(self.avail()[b as int].len() == t.node_count);
            let ab = self.available[a][b];
            set_entry(&mut self.available, a, b, ab - 1);
            assert(self.avail()[b as int].len() == t.node_count);
            assert(self.avail().len() == self.available@.len());
            assert(self.avail()[b as int] == self.available@[b as int]@);
            let ba = self.available[b][a];
            set_entry(&mut self.available, b, a, ba - 1);
            assert forall|i: int, j: int|
                0 <= i < t.node_count && 0 <= j < t.node_count implies #[trigger] self.avail()[i][j] == a0[i][j] - (
                if link_used_before(p@, k + 1, i, j) {
                    1int
                } else {
                    0int
                }) by {
                let on = (i == a && j == b) || (i == b && j == a);
                if on {
                    assert(link_used_before(p@, k + 1, i, j));
                } else {
                    assert(self.avail()[i][j] == before[i][j]);
                    if link_used_before(p@, k + 1, i, j) {
                        let m = choose|m: int|
                            #![trigger p@[m]]
                            0 <= m < k + 1 && ((p@[m] == i && p@[m + 1] == j) || (p@[m] == j && p@[m + 1] == i));
                        assert(link_used_before(p@, k as int, i, j));
                    }
                }
            }
            k = k + 1;
        }
        assert forall|i: int, j: int| 0 <= i < t.node_count && 0 <= j < t.node_count implies #[trigger] self.avail()[i][j]
            == a0[i][j] - usage(p@, i, j) && {
            &&& self.avail()[i][j] == self.avail()[j][i]
            &&& (t.cap()[i][j] < 0 ==> self.avail()[i][j] == NO_LINK)
            &&& (t.cap()[i][j] >= 0 ==> 0 <= self.avail()[i][j] <= t.cap()[i][j])
        } by {
            assert(link_used(p@, i, j) == link_used_before(p@, k as int, i, j));
            assert(link_used(p@, j, i) == link_used(p@, i, j));
            assert(self.avail()[j][i] == a0[j][i] - usage(p@, j, i));
            if link_used(p@, i, j) {
                let m = choose|m: int|
                    #![trigger p@[m]]
                    0 <= m < p@.len() - 1 && ((p@[m] == i && p@[m + 1] == j) || (p@[m] == j && p@[m + 1] == i));
                assert(p@[m] < t.node_count && p@[m + 1] < t.node_count);
                assert(a0[p@[m] as int][p@[m + 1] as int] >= 1);
                assert(t.cap()[p@[m] as int][p@[m + 1] as int] >= 0);
            }
        }
    }

    /// Returns one unit on every link along `p`, in both directions, where
    /// the link has less than its total capacity free.
    pub fn release(&mut self, t: &Topology, p: &Vec<usize>)
        requires
            t.wf(),
            old(self).wf(*t),
            is_link_path(*t, p@),
        ensures
            final(self).wf(*t),
            forall|i: int, j: int|
                0 <= i < t.node_count && 0 <= j < t.node_count ==> #[trigger] final(self).avail()[i][j] == (
                if link_used(p@, i, j) && old(self).avail()[i][j] < t.cap()[i][j] {
                    old(self).avail()[i][j] + 1
                } else {
                    old(self).avail()[i][j] as int
                }),
    {
        let ghost a0 = self.avail();
        if p.len() < 2 {
            assert forall|i: int, j: int| 0 <= i < t.node_count && 0 <= j < t.node_count implies !link_used(p@, i, j) by {
            }
            return;
        }
        let mut k: usize = 0;
        while k < p.len() - 1
            invariant
                t.wf(),
                is_link_path(*t, p@),
                p@.len() >= 2,
                k + 1 <= p@.len(),
                is_square(self.avail(), t.node_count as nat),
                a0 == old(self).avail(),
                old(self).wf(*t),
                forall|i: int, j: int|
                    0 <= i < t.node_count && 0 <= j < t.node_count ==> #[trigger] self.avail()[i][j] == (
                    if link_used_before(p@, k as int, i, j) && a0[i][j] < t.cap()[i][j] {
                        a0[i][j] + 1
                    } else {
                        a0[i][j] as int
                    }),
            decreases p@.len() - k,
        {
            let a = p[k];
            let b = p[k + 1];
            let ghost before = self.avail();
            assert(p@[k as int] == a && p@[k + 1] == b);
            assert(a != b);
            assert(!link_used_before(p@, k as int, a as int, b as int)) by {
                if link_used_before(p@, k as int, a as int, b as int) {
                    let m = choose|m: int|
                        #![trigger p@[m]]
                        0 <= m < k && ((p@[m] == a && p@[m + 1] == b) || (p@[m] == b && p@[m + 1] == a));
                    assert(p@[m] == p@[m]);
                }
            }
            assert(!link_used_before(p@, k as int, b as int, a as int));
            assert(self.avail()[a as int].len() == t.node_count);
            assert(self.avail()[b as int].len() == t.node_count);
            assert(t.cap()[a as int][b as int] == t.cap()[b as int][a as int]);
            assert(a0[a as int][b as int] == a0[b as int][a as int]);
            let ab = self.available[a][b];
            if ab < t.capacity[a][b] {
                set_entry(&mut self.available, a, b, ab + 1);
                assert(self.avail()[b as int].len() == t.node_count);
                assert(self.avail().len() == self.available@.len());
                assert(self.avail()[b as int] == self.available@[b as int]@);
                let ba = self.available[b][a];
                set_entry(&mut self.available, b, a, ba + 1);
            }
            assert forall|i: int, j: int|
                0 <= i < t.node_count && 0 <= j < t.node_count implies #[trigger] self.avail()[i][j] == (
                if link_used_before(p@, k + 1, i, j) && a0[i][j] < t.cap()[i][j] {
                    a0[i][j] + 1
                } else {
                    a0[i][j] as int
                }) by {
                let on = (i == a && j == b) || (i == b && j == a);
                if on {
                    assert(link_used_before(p@, k + 1, i, j));
                } else {
                    assert(self.avail()[i][j] == before[i][j]);
                    if link_used_before(p@, k + 1, i, j) {
                        let m = choose|m: int|
                            #![trigger p@[m]]
                            0 <= m < k + 1 && ((p@[m] == i && p@[m + 1] == j) || (p@[m] == j && p@[m + 1] == i));
                        assert(link_used_before(p@, k as int, i, j));
                    }
                }
            }
            k = k + 1;
        }
        assert forall|i: int, j: int| 0 <= i < t.node_count && 0 <= j < t.node_count implies {
            &&& self.avail()[i][j] == self.avail()[j][i]
            &&& (t.cap()[i][j] < 0 ==> self.avail()[i][j] == NO_LINK)
            &&& (t.cap()[i][j] >= 0 ==> 0 <= self.avail()[i][j] <= t.cap()[i][j])
            &&& #[trigger] self.avail()[i][j] == (if link_used(p@, i, j) && a0[i][j] < t.cap()[i][j] {
                a0[i][j] + 1
            } else {
                a0[i][j] as int
            })
        } by {
            assert(link_used(p@, i, j) == link_used_before(p@, k as int, i, j));
            assert(link_used(p@, j, i) == link_used(p@, i, j));
            assert(self.avail()[j][i] == (if link_used(p@, j, i) && a0[j][i] < t.cap()[j][i] {
                a0[j][i] + 1
            } else {
                a0[j][i] as int
            }));
            assert(t.cap()[i][j] == t.cap()[j][i]);
        }
    }
}

} // verus!
