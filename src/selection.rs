//! Choice of the best candidate by Sharpe ratio, and the allocation built from it.
use crate::ieee::Binary64;
use crate::statistics::Statistics;
use vstd::prelude::*;
use vstd::set_lib::{lemma_int_range, lemma_len_subset, set_int_range};

verus! {

/// Why no allocation could be chosen.
#[derive(Debug, Clone, Copy, PartialEq, Eq, Structural)]
pub enum SelectionError {
    /// Every Sharpe ratio is NaN.
    NoValidCandidate,
    /// The winning split and the list of fund ids differ in length.
    ArityMismatch,
}

/// Every entry of `s` is NaN (true of an empty sequence).
pub open spec fn all_nan(s: Seq<Binary64>) -> bool {
    forall|i: int| 0 <= i < s.len() ==> (#[trigger] s[i]).spec_is_nan()
}

/// Position `i` holds a largest value among those that are not NaN, and no
/// later position holds a value as large. NaN never wins.
pub open spec fn is_best(s: Seq<Binary64>, i: int) -> bool {
    &&& 0 <= i < s.len()
    &&& !s[i].spec_is_nan()
    &&& forall|j: int| 0 <= j < s.len() && !(#[trigger] s[j]).spec_is_nan() ==> s[j].rank() <= s[i].rank()
    &&& forall|j: int| i < j < s.len() && !(#[trigger] s[j]).spec_is_nan() ==> s[j].rank() < s[i].rank()
}

/// At most one position is the best one.
pub proof fn lemma_best_unique(s: Seq<Binary64>, i: int, j: int)
    requires
        is_best(s, i),
        is_best(s, j),
    ensures
        i == j,
{
    if i < j {
        assert(s[j].rank() < s[i].rank());
        assert(s[i].rank() <= s[j].rank());
    } else if j < i {
        assert(s[i].rank() < s[j].rank());
        assert(s[j].rank() <= s[i].rank());
    }
}

/// Unless every entry is NaN, some position is the best one.
pub proof fn lemma_best_exists(s: Seq<Binary64>)
    requires
        !all_nan(s),
    ensures
        exists|i: int| is_best(s, i),
    decreases s.len(),
{
    let p = s.drop_last();
    let n = s.len() - 1;
    if all_nan(p) {
        if s[n].spec_is_nan() {
            assert forall|i: int| 0 <= i < s.len() implies (#[trigger] s[i]).spec_is_nan() by {
                if i < n {
                    assert(p[i] == s[i]);
                }
            }
        }
        assert forall|j: int| 0 <= j < s.len() && !(#[trigger] s[j]).spec_is_nan() implies j == n by {
            if j < n {
                assert(p[j] == s[j]);
            }
        }
        assert(is_best(s, n));
    } else {
        lemma_best_exists(p);
        let b = choose|b: int| is_best(p, b);
        assert forall|j: int| 0 <= j < n implies #[trigger] s[j] == p[j] by {}
        if !s[n].spec_is_nan() && s[n].rank() >= s[b].rank() {
            assert(is_best(s, n));
        } else {
            assert(is_best(s, b));
        }
    }
}

/// Position of the largest Sharpe ratio, NaN entries never winning; among equal
/// largest values the last one is taken.
pub fn best_index(sharpe_ratios: &Vec<Binary64>) -> (r: Result<usize, SelectionError>)
    ensures
        r is Err <==> all_nan(sharpe_ratios@),
        r is Err ==> r == Err::<usize, SelectionError>(SelectionError::NoValidCandidate),
        r matches Ok(i) ==> is_best(sharpe_ratios@, i as int),
{
    let s = sharpe_ratios;
    let mut best: Option<usize> = None;
    let mut j: usize = 0;
    while j < s.len()
        invariant
            j <= s@.len(),
            best is None ==> all_nan(s@.take(j as int)),
            best matches Some(b) ==> is_best(s@.take(j as int), b as int),
        decreases s@.len() - j,
    {
        let x = s[j];
        let ghost pre = s@.take(j as int);
        assert(s@.take(j + 1) =~= pre.push(x));
        if !x.is_nan() {
            match best {
                None => {
                    best = Some(j);
                },
                Some(b) => {
                    if !x.rank_below(s[b]) {
                        best = Some(j);
                    }
                },
            }
        }
        j = j + 1;
    }
    assert(s@.take(j as int) =~= s@);
    match best {
        Some(b) => Ok(b),
        None => Err(SelectionError::NoValidCandidate),
    }
}

/// The chosen allocation: each fund id with its weight in granularity steps,
/// and the figures of the chosen candidate.
pub struct Allocation {
    pub allocations: Vec<(String, u64)>,
    pub sharpe_ratio: Binary64,
    pub expected_returns_at_end: Binary64,
    pub average: Binary64,
    pub volatility: Binary64,
}

/// The allocation of the candidate with the best Sharpe ratio, its weights
/// paired in order with `fund_ids`.
pub fn best_allocation(statistics: &Statistics, fund_ids: &Vec<String>) -> (r: Result<
    Allocation,
    SelectionError,
>)
    requires
        statistics.wf(),
    ensures
        all_nan(statistics.spec_sharpe_ratios()) <==> (r is Err && r->Err_0
            == SelectionError::NoValidCandidate),
        forall|i: int|
            #[trigger] is_best(statistics.spec_sharpe_ratios(), i) ==> {
                &&& (r is Err <==> statistics.spec_splits()[i].len() != fund_ids@.len())
                &&& r is Err ==> r->Err_0 == SelectionError::ArityMismatch
                &&& r matches Ok(a) ==> {
                    &&& a.sharpe_ratio == statistics.spec_sharpe_ratios()[i]
                    &&& a.expected_returns_at_end == statistics.spec_returns_at_end()[i]
                    &&& a.average == statistics.spec_average_returns()[i]
                    &&& a.volatility == statistics.spec_volatilities()[i]
                    &&& a.allocations@.len() == fund_ids@.len()
                    &&& forall|k: int|
                        0 <= k < fund_ids@.len() ==> (#[trigger] a.allocations@[k]).0@
                            == fund_ids@[k]@ && a.allocations@[k].1
                            == statistics.spec_splits()[i][k]
                }
            },
{
    proof {
        if !all_nan(statistics.spec_sharpe_ratios()) {
            lemma_best_exists(statistics.spec_sharpe_ratios());
        }
    }
    let idx = match best_index(statistics.sharpe_ratios()) {
        Ok(i) => i,
        Err(e) => {
            return Err(e);
        },
    };
    proof {
        assert forall|i: int| #[trigger] is_best(statistics.spec_sharpe_ratios(), i) implies i
            == idx by {
            lemma_best_unique(statistics.spec_sharpe_ratios(), i, idx as int);
        }
    }
    let split = &statistics.splits()[idx];
    if split.len() != fund_ids.len() {
        return Err(SelectionError::ArityMismatch);
    }
    let mut allocations: Vec<(String, u64)> = Vec::with_capacity(split.len());
    let mut k: usize = 0;
    while k < split.len()
        invariant
            k <= split@.len(),
            split@.len() == fund_ids@.len(),
            allocations@.len() == k,
            forall|q: int|
                0 <= q < k ==> (#[trigger] allocations@[q]).0@ == fund_ids@[q]@
                    && allocations@[q].1 == split@[q],
        decreases split@.len() - k,
    {
        allocations.push((fund_ids[k].clone(), split[k]));
        k = k + 1;
    }
    Ok(
        Allocation {
            allocations,
            sharpe_ratio: statistics.sharpe_ratios()[idx],
            expected_returns_at_end: statistics.returns_at_end()[idx],
            average: statistics.average_returns()[idx],
            volatility: statistics.volatilities()[idx],
        },
    )
}

/// Fund `i` ranks ahead of fund `j`: its average is higher, or the averages are
/// equal and `i` comes later in the list.
pub open spec fn ranks_ahead(s: Seq<Binary64>, i: int, j: int) -> bool {
    s[i].rank() > s[j].rank() || (s[i].rank() == s[j].rank() && i > j)
}

fn ranks_ahead_exec(s: &Vec<Binary64>, i: usize, j: usize) -> (r: bool)
    requires
        i < s@.len(),
        j < s@.len(),
    ensures
        r == ranks_ahead(s@, i as int, j as int),
{
    s[j].rank_below(s[i]) || (!s[i].rank_below(s[j]) && i > j)
}

fn holds(r: &Vec<usize>, j: usize) -> (b: bool)
    ensures
        b == r@.contains(j),
{
    let mut q: usize = 0;
    while q < r.len()
        invariant
            q <= r@.len(),
            forall|p: int| 0 <= p < q ==> r@[p] != j,
        decreases r@.len() - q,
    {
        if r[q] == j {
            return true;
        }
        q = q + 1;
    }
    false
}

/// A sequence that holds every position below `len` has at least `len` entries.
proof fn lemma_cover(r: Seq<usize>, len: nat)
    requires
        len <= usize::MAX,
        forall|j: int| 0 <= j < len ==> #[trigger] r.contains(j as usize),
    ensures
        len <= r.len(),
{
    let ri = r.map_values(|x: usize| x as int);
    lemma_int_range(0, len as int);
    assert forall|j: int| set_int_range(0, len as int).contains(j) implies ri.to_set().contains(j) by {
        assert(r.contains(j as usize));
        let q = choose|q: int| 0 <= q < r.len() && r[q] == j as usize;
        assert(ri[q] == j);
        assert(ri.contains(j));
    }
    lemma_len_subset(set_int_range(0, len as int), ri.to_set());
    ri.lemma_cardinality_of_set();
}

/// Positions of the `n` funds with the highest averages, best first; funds with
/// equal averages are taken from the end of the list first.
pub fn best_funds(averages: &Vec<Binary64>, n: usize) -> (r: Vec<usize>)
    requires
        n <= averages@.len(),
        forall|i: int| 0 <= i < averages@.len() ==> !(#[trigger] averages@[i]).spec_is_nan(),
    ensures
        r@.len() == n,
        forall|q: int| 0 <= q < n ==> (#[trigger] r@[q]) < averages@.len(),
        forall|p: int, q: int|
            0 <= p < q < n ==> ranks_ahead(averages@, #[trigger] r@[p] as int, #[trigger] r@[q] as int),
        forall|j: int, q: int|
            0 <= j < averages@.len() && 0 <= q < n && !r@.contains(j as usize) ==> #[trigger] ranks_ahead(averages@, r@[q] as int, j),
{
    let s = averages;
    let len = s.len();
    let mut r: Vec<usize> = Vec::new();
    while r.len() < n
        invariant
            len == s@.len(),
            n <= len,
            r@.len() <= n,
            forall|q: int| 0 <= q < r@.len() ==> (#[trigger] r@[q]) < len,
            forall|p: int, q: int|
                0 <= p < q < r@.len() ==> ranks_ahead(s@, #[trigger] r@[p] as int, #[trigger] r@[q] as int),
            forall|j: int, q: int|
                0 <= j < len && 0 <= q < r@.len() && !r@.contains(j as usize) ==> #[trigger] ranks_ahead(s@, r@[q] as int, j),
        decreases n - r@.len(),
    {
        let mut best: Option<usize> = None;
        let mut j: usize = 0;
        while j < len
            invariant
                j <= len,
                len == s@.len(),
                best is None ==> forall|i: int| 0 <= i < j ==> #[trigger] r@.contains(i as usize),
                best matches Some(b) ==> b < j && !r@.contains(b) && forall|i: int|
                    0 <= i < j && !(#[trigger] r@.contains(i as usize)) && i != b ==> ranks_ahead(s@, b as int, i),
            decreases len - j,
        {
            if !holds(&r, j) {
                match best {
                    None => {
                        best = Some(j);
                    },
                    Some(b) => {
                        if ranks_ahead_exec(s, j, b) {
                            best = Some(j);
                        }
                    },
                }
            }
            j = j + 1;
        }
        match best {
            Some(b) => {
                let ghost before = r@;
                r.push(b);
                assert forall|i: int| 0 <= i < len && !(#[trigger] r@.contains(i as usize)) implies !before.contains(
                    i as usize,
                ) && i != b by {
                    if before.contains(i as usize) {
                        let q = choose|q: int| 0 <= q < before.len() && before[q] == i as usize;
                        assert(r@[q] == i as usize);
                    }
                    assert(r@[before.len() as int] == b);
                }
                assert forall|j2: int, q: int|
                    0 <= j2 < len && 0 <= q < r@.len() && !r@.contains(j2 as usize) implies #[trigger] ranks_ahead(s@, r@[q] as int, j2) by {
                    if q < before.len() {
                        assert(r@[q] == before[q]);
                    }
                }
                assert forall|p: int, q: int|
                    0 <= p < q < r@.len() implies ranks_ahead(s@, #[trigger] r@[p] as int, #[trigger] r@[q] as int) by {
                    assert(r@[p] == before[p]);
                    if q == before.len() {
                        assert(!before.contains(b));
                    } else {
                        assert(r@[q] == before[q]);
                    }
                }
            },
            None => {
                proof {
                    lemma_cover(r@, len as nat);
                }
                assert(false);
            },
        }
    }
    r
}

} // verus!
