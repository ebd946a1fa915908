//! Checks made before a portfolio is evaluated, and the ids of derived series.
use vstd::prelude::*;
use vstd::string::StringExecFns;

verus! {

/// Why a portfolio cannot be evaluated.
#[derive(Debug, Clone, Copy, PartialEq, Eq, Structural)]
pub enum EvaluationError {
    /// The split and the list of assets differ in length.
    ArityMismatch,
    /// The return series (the risk-free one included) differ in length.
    LengthMismatch,
    /// The weights of the split do not make up the whole.
    InvalidSplit,
}

/// Every length in `lengths` equals `period_count`.
pub open spec fn lengths_agree(lengths: Seq<usize>, period_count: usize) -> bool {
    forall|i: int| 0 <= i < lengths.len() ==> #[trigger] lengths[i] == period_count
}

/// Sum of the weights of a split, in steps.
pub open spec fn weight_sum(split: Seq<u64>) -> int
    decreases split.len(),
{
    if split.len() == 0 {
        0
    } else {
        weight_sum(split.drop_last()) + split.last() as int
    }
}

/// Checks a portfolio before its blended series is computed: one weight per
/// asset, every asset series as long as the risk-free one, and weights that
/// add up to `steps`. Errors are reported in that order.
pub fn check_portfolio(
    split: &Vec<u64>,
    steps: u64,
    series_lengths: &Vec<usize>,
    risk_free_length: usize,
) -> (r: Result<(), EvaluationError>)
    ensures
        split@.len() != series_lengths@.len() ==> r == Err::<(), EvaluationError>(
            EvaluationError::ArityMismatch,
        ),
        split@.len() == series_lengths@.len() && !lengths_agree(series_lengths@, risk_free_length)
            ==> r == Err::<(), EvaluationError>(EvaluationError::LengthMismatch),
        split@.len() == series_lengths@.len() && lengths_agree(series_lengths@, risk_free_length)
            ==> (r is Ok <==> weight_sum(split@) == steps),
        r is Err ==> (r == Err::<(), EvaluationError>(EvaluationError::InvalidSplit) || split@.len()
            != series_lengths@.len() || !lengths_agree(series_lengths@, risk_free_length)),
{
    if split.len() != series_lengths.len() {
        return Err(EvaluationError::ArityMismatch);
    }
    let mut i: usize = 0;
    while i < series_lengths.len()
        invariant
            i <= series_lengths@.len(),
            split@.len() == series_lengths@.len(),
            lengths_agree(series_lengths@.take(i as int), risk_free_length),
        decreases series_lengths@.len() - i,
    {
        if series_lengths[i] != risk_free_length {
            return Err(EvaluationError::LengthMismatch);
        }
        assert(series_lengths@.take(i + 1) =~= series_lengths@.take(i as int).push(series_lengths@[i as int]));
        i = i + 1;
    }
    assert(series_lengths@.take(i as int) =~= series_lengths@);
    let mut total: u64 = 0;
    let mut j: usize = 0;
    while j < split.len()
        invariant
            j <= split@.len(),
            split@.len() == series_lengths@.len(),
            lengths_agree(series_lengths@, risk_free_length),
            total == weight_sum(split@.take(j as int)),
            total <= steps,
        decreases split@.len() - j,
    {
        assert(split@.take(j + 1).drop_last() =~= split@.take(j as int));
        if split[j] > steps - total {
            proof {
                lemma_weight_sum_prefix(split@, j + 1);
            }
            return Err(EvaluationError::InvalidSplit);
        }
        total = total + split[j];
        j = j + 1;
    }
    assert(split@.take(j as int) =~= split@);
    if total == steps {
        Ok(())
    } else {
        Err(EvaluationError::InvalidSplit)
    }
}

proof fn lemma_weight_sum_prefix(t: Seq<u64>, j: int)
    requires
        0 <= j <= t.len(),
    ensures
        weight_sum(t.take(j)) <= weight_sum(t),
    decreases t.len(),
{
    if j < t.len() {
        assert(t.drop_last().take(j) =~= t.take(j));
        lemma_weight_sum_prefix(t.drop_last(), j);
    } else {
        assert(t.take(j) =~= t);
    }
}

/// Ids joined in order, with `_` between consecutive ones.
pub open spec fn join_ids(ids: Seq<Seq<char>>) -> Seq<char>
    decreases ids.len(),
{
    if ids.len() == 0 {
        seq![]
    } else if ids.len() == 1 {
        ids[0]
    } else {
        join_ids(ids.drop_last()) + seq!['_'] + ids.last()
    }
}

/// Id of the excess series `a - b`: `a`, then `_`, then `b`.
pub fn subtracted_id(a: &String, b: &String) -> (r: String)
    ensures
        r@ == a@ + seq!['_'] + b@,
{
    let mut r = String::new();
    r.append(a.as_str());
    r.append("_");
    proof {
        reveal_strlit("_");
    }
    r.append(b.as_str());
    r
}

/// Id of a blended series: the ids of its assets joined with `_`.
pub fn joined_id(ids: &Vec<String>) -> (r: String)
    ensures
        r@ == join_ids(ids@.map_values(|s: String| s@)),
{
    let ghost v = ids@.map_values(|s: String| s@);
    let mut r = String::new();
    let mut i: usize = 0;
    while i < ids.len()
        invariant
            i <= ids@.len(),
            v == ids@.map_values(|s: String| s@),
            r@ == join_ids(v.take(i as int)),
        decreases ids@.len() - i,
    {
        let ghost before = r@;
        assert(v.take(i + 1).drop_last() =~= v.take(i as int));
        assert(v.take(i + 1).last() == v[i as int]);
        assert(v[i as int] == ids@[i as int]@);
        if i > 0 {
            proof {
                reveal_strlit("_");
            }
            r.append("_");
            r.append(ids[i].as_str());
            assert(r@ =~= before + seq!['_'] + v[i as int]);
        } else {
            r.append(ids[i].as_str());
            assert(r@ =~= v[0]);
        }
        i = i + 1;
    }
    assert(v.take(i as int) =~= v);
    r
}

} // verus!
