//! Recovery of the splits behind the vertices of the efficient frontier.
//!
//! The hull of the `(volatility, average return)` cloud is computed elsewhere;
//! its vertices come back as coordinates. Each vertex is matched to the last
//! candidate whose coordinates are equal to it as ordered keys (all NaNs alike,
//! both zeros alike). A vertex that matches no candidate is skipped.
use crate::ieee::Binary64;
use vstd::prelude::*;

verus! {

/// Candidate `i` sits at `(x, y)`.
pub open spec fn at_point(xs: Seq<Binary64>, ys: Seq<Binary64>, i: int, x: Binary64, y: Binary64) -> bool {
    xs[i].same_key(x) && ys[i].same_key(y)
}

/// The last candidate below position `n` that sits at `(x, y)`.
pub open spec fn last_at(xs: Seq<Binary64>, ys: Seq<Binary64>, x: Binary64, y: Binary64, n: int) -> Option<int>
    decreases n,
{
    if n <= 0 {
        None
    } else if at_point(xs, ys, n - 1, x, y) {
        Some(n - 1)
    } else {
        last_at(xs, ys, x, y, n - 1)
    }
}

/// The splits found for the first `n` hull vertices, in vertex order.
pub open spec fn recovered(
    xs: Seq<Binary64>,
    ys: Seq<Binary64>,
    splits: Seq<Seq<u64>>,
    hull_x: Seq<Binary64>,
    hull_y: Seq<Binary64>,
    n: int,
) -> Seq<Seq<u64>>
    decreases n,
{
    if n <= 0 {
        seq![]
    } else {
        let before = recovered(xs, ys, splits, hull_x, hull_y, n - 1);
        match last_at(xs, ys, hull_x[n - 1], hull_y[n - 1], xs.len() as int) {
            Some(i) => before.push(splits[i]),
            None => before,
        }
    }
}

proof fn lemma_last_at_range(xs: Seq<Binary64>, ys: Seq<Binary64>, x: Binary64, y: Binary64, n: int)
    ensures
        last_at(xs, ys, x, y, n) matches Some(i) ==> 0 <= i < n && at_point(xs, ys, i, x, y),
    decreases n,
{
    if n > 0 {
        lemma_last_at_range(xs, ys, x, y, n - 1);
    }
}

/// The last candidate at `(x, y)`, if any.
pub fn point_source(xs: &Vec<Binary64>, ys: &Vec<Binary64>, x: Binary64, y: Binary64) -> (r: Option<usize>)
    requires
        xs@.len() == ys@.len(),
    ensures
        match r {
            Some(i) => last_at(xs@, ys@, x, y, xs@.len() as int) == Some(i as int),
            None => last_at(xs@, ys@, x, y, xs@.len() as int) is None,
        },
{
    let mut i: usize = xs.len();
    while i > 0
        invariant
            i <= xs@.len(),
            xs@.len() == ys@.len(),
            last_at(xs@, ys@, x, y, xs@.len() as int) == last_at(xs@, ys@, x, y, i as int),
        decreases i,
    {
        if xs[i - 1].key_eq(x) && ys[i - 1].key_eq(y) {
            return Some(i - 1);
        }
        i = i - 1;
    }
    None
}

/// The split behind each hull vertex, in vertex order; vertices that match no
/// candidate are left out.
pub fn recover_splits(
    xs: &Vec<Binary64>,
    ys: &Vec<Binary64>,
    splits: &Vec<Vec<u64>>,
    hull_x: &Vec<Binary64>,
    hull_y: &Vec<Binary64>,
) -> (r: Vec<Vec<u64>>)
    requires
        xs@.len() == ys@.len(),
        splits@.len() == xs@.len(),
        hull_x@.len() == hull_y@.len(),
    ensures
        Seq::new(r@.len(), |i: int| r@[i]@) == recovered(
            xs@,
            ys@,
            Seq::new(splits@.len(), |i: int| splits@[i]@),
            hull_x@,
            hull_y@,
            hull_x@.len() as int,
        ),
{
    let ghost all = Seq::new(splits@.len(), |i: int| splits@[i]@);
    let mut out: Vec<Vec<u64>> = Vec::new();
    let mut v: usize = 0;
    while v < hull_x.len()
        invariant
            v <= hull_x@.len(),
            hull_x@.len() == hull_y@.len(),
            xs@.len() == ys@.len(),
            splits@.len() == xs@.len(),
            all == Seq::new(splits@.len(), |i: int| splits@[i]@),
            Seq::new(out@.len(), |i: int| out@[i]@) == recovered(xs@, ys@, all, hull_x@, hull_y@, v as int),
        decreases hull_x@.len() - v,
    {
        let ghost before = Seq::new(out@.len(), |i: int| out@[i]@);
        proof {
            lemma_last_at_range(xs@, ys@, hull_x@[v as int], hull_y@[v as int], xs@.len() as int);
        }
        match point_source(xs, ys, hull_x[v], hull_y[v]) {
            Some(i) => {
                let s = splits[i].clone();
                assert(s@ =~= all[i as int]);
                out.push(s);
                assert(Seq::new(out@.len(), |q: int| out@[q]@) =~= before.push(all[i as int]));
            },
            None => {},
        }
        v = v + 1;
    }
    out
}

} // verus!
