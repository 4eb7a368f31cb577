//! Square matrices stored as vectors of rows.

use vstd::prelude::*;

verus! {

/// The mathematical view of a matrix: a sequence of rows.
pub open spec fn view2<T>(m: Seq<Vec<T>>) -> Seq<Seq<T>> {
    m.map_values(|r: Vec<T>| r@)
}

/// `m` has `n` rows of `n` entries each.
pub open spec fn is_square<T>(m: Seq<Seq<T>>, n: nat) -> bool {
    &&& m.len() == n
    &&& forall|i: int| 0 <= i < n ==> (#[trigger] m[i]).len() == n
}

/// A vector of `n` copies of `v`.
pub fn filled_row<T: Copy>(n: usize, v: T) -> (row: Vec<T>)
    ensures
        row@ == Seq::new(n as nat, |x: int| v),
{
    let mut row: Vec<T> = Vec::new();
    let mut j: usize = 0;
    while j < n
        invariant
            j <= n,
            row@ == Seq::new(j as nat, |x: int| v),
        decreases n - j,
    {
        row.push(v);
        j = j + 1;
        assert(row@ =~= Seq::new(j as nat, |x: int| v));
    }
    row
}

/// A square matrix of side `n` whose entries all equal `v`.
pub fn filled<T: Copy>(n: usize, v: T) -> (m: Vec<Vec<T>>)
    ensures
        is_square(view2(m@), n as nat),
        forall|i: int, j: int| 0 <= i < n && 0 <= j < n ==> view2(m@)[i][j] == v,
{
    let mut m: Vec<Vec<T>> = Vec::new();
    let mut i: usize = 0;
    while i < n
        invariant
            i <= n,
            m@.len() == i,
            forall|k: int| 0 <= k < i ==> (#[trigger] m@[k])@ == Seq::new(n as nat, |x: int| v),
        decreases n - i,
    {
        let row = filled_row(n, v);
        m.push(row);
        i = i + 1;
    }
    m
}

/// Copy of a vector.
pub fn copy_vec<T: Copy>(v: &Vec<T>) -> (r: Vec<T>)
    ensures
        r@ == v@,
{
    let mut r: Vec<T> = Vec::new();
    let mut i: usize = 0;
    while i < v.len()
        invariant
            i <= v.len(),
            r@ == v@.subrange(0, i as int),
        decreases v.len() - i,
    {
        r.push(v[i]);
        i = i + 1;
        assert(r@ =~= v@.subrange(0, i as int));
    }
    assert(r@ =~= v@);
    r
}

/// Sets entry `(i, j)` of `m` to `v`.
pub fn set_entry<T>(m: &mut Vec<Vec<T>>, i: usize, j: usize, v: T)
    requires
        i < view2(old(m)@).len(),
        j < view2(old(m)@)[i as int].len(),
    ensures
        view2(final(m)@) == view2(old(m)@).update(i as int, view2(old(m)@)[i as int].update(j as int, v)),
{
    let mut row = m.remove(i);
    row.set(j, v);
    m.insert(i, row);
    assert(view2(m@) =~= view2(old(m)@).update(i as int, view2(old(m)@)[i as int].update(j as int, v)));
}

} // verus!
