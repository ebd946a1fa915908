//! The batch of statistics gathered by a search, and the search that fills it.
use crate::ieee::Binary64;
use crate::splits::{all_splits, PossibleSplits};
use vstd::prelude::*;

verus! {

/// The four figures computed for one candidate split.
#[derive(Debug, Clone, Copy, PartialEq, Eq, Structural)]
pub struct CandidateMetrics {
    pub volatility: Binary64,
    pub average_return: Binary64,
    pub return_at_end: Binary64,
    pub sharpe_ratio: Binary64,
}

/// Parallel arrays: position `i` of each one describes the same candidate.
pub struct Statistics {
    splits: Vec<Vec<u64>>,
    volatilities: Vec<Binary64>,
    average_returns: Vec<Binary64>,
    returns_at_end: Vec<Binary64>,
    sharpe_ratios: Vec<Binary64>,
}

impl Statistics {
    pub closed spec fn spec_splits(&self) -> Seq<Seq<u64>> {
        Seq::new(self.splits@.len(), |i: int| self.splits@[i]@)
    }

    pub closed spec fn spec_volatilities(&self) -> Seq<Binary64> {
        self.volatilities@
    }

    pub closed spec fn spec_average_returns(&self) -> Seq<Binary64> {
        self.average_returns@
    }

    pub closed spec fn spec_returns_at_end(&self) -> Seq<Binary64> {
        self.returns_at_end@
    }

    pub closed spec fn spec_sharpe_ratios(&self) -> Seq<Binary64> {
        self.sharpe_ratios@
    }

    /// All arrays have the same length.
    pub open spec fn wf(&self) -> bool {
        &&& self.spec_volatilities().len() == self.spec_splits().len()
        &&& self.spec_average_returns().len() == self.spec_splits().len()
        &&& self.spec_returns_at_end().len() == self.spec_splits().len()
        &&& self.spec_sharpe_ratios().len() == self.spec_splits().len()
    }

    pub open spec fn spec_len(&self) -> nat {
        self.spec_splits().len()
    }

    /// The figures recorded at position `i`.
    pub open spec fn metrics_at(&self, i: int) -> CandidateMetrics {
        CandidateMetrics {
            volatility: self.spec_volatilities()[i],
            average_return: self.spec_average_returns()[i],
            return_at_end: self.spec_returns_at_end()[i],
            sharpe_ratio: self.spec_sharpe_ratios()[i],
        }
    }

    /// The figures of every candidate, in order.
    pub open spec fn spec_metrics(&self) -> Seq<CandidateMetrics> {
        Seq::new(self.spec_len(), |i: int| self.metrics_at(i))
    }

    /// An empty batch with room for `capacity` candidates.
    pub fn with_capacity(capacity: usize) -> (r: Statistics)
        ensures
            r.wf(),
            r.spec_len() == 0,
    {
        let r = Statistics {
            splits: Vec::with_capacity(capacity),
            volatilities: Vec::with_capacity(capacity),
            average_returns: Vec::with_capacity(capacity),
            returns_at_end: Vec::with_capacity(capacity),
            sharpe_ratios: Vec::with_capacity(capacity),
        };
        assert(r.spec_splits() =~= Seq::<Seq<u64>>::empty());
        r
    }

    /// Appends one candidate at the next position of every array.
    pub fn push(&mut self, split: Vec<u64>, metrics: CandidateMetrics)
        requires
            old(self).wf(),
        ensures
            final(self).wf(),
            final(self).spec_splits() == old(self).spec_splits().push(split@),
            final(self).spec_metrics() == old(self).spec_metrics().push(metrics),
            final(self).spec_volatilities() == old(self).spec_volatilities().push(metrics.volatility),
            final(self).spec_average_returns() == old(self).spec_average_returns().push(
                metrics.average_return,
            ),
            final(self).spec_returns_at_end() == old(self).spec_returns_at_end().push(
                metrics.return_at_end,
            ),
            final(self).spec_sharpe_ratios() == old(self).spec_sharpe_ratios().push(
                metrics.sharpe_ratio,
            ),
    {
        let ghost before = *self;
        self.splits.push(split);
        self.volatilities.push(metrics.volatility);
        self.average_returns.push(metrics.average_return);
        self.returns_at_end.push(metrics.return_at_end);
        self.sharpe_ratios.push(metrics.sharpe_ratio);
        assert(self.spec_splits() =~= before.spec_splits().push(split@));
        assert(self.spec_metrics() =~= before.spec_metrics().push(metrics));
    }

    pub fn len(&self) -> (r: usize)
        ensures
            r == self.spec_len(),
    {
        self.splits.len()
    }

    pub fn splits(&self) -> (r: &Vec<Vec<u64>>)
        ensures
            r@.len() == self.spec_len(),
            forall|i: int| 0 <= i < r@.len() ==> #[trigger] r@[i]@ == self.spec_splits()[i],
    {
        &self.splits
    }

    pub fn volatilities(&self) -> (r: &Vec<Binary64>)
        ensures
            r@ == self.spec_volatilities(),
    {
        &self.volatilities
    }

    pub fn average_returns(&self) -> (r: &Vec<Binary64>)
        ensures
            r@ == self.spec_average_returns(),
    {
        &self.average_returns
    }

    pub fn returns_at_end(&self) -> (r: &Vec<Binary64>)
        ensures
            r@ == self.spec_returns_at_end(),
    {
        &self.returns_at_end
    }

    pub fn sharpe_ratios(&self) -> (r: &Vec<Binary64>)
        ensures
            r@ == self.spec_sharpe_ratios(),
    {
        &self.sharpe_ratios
    }
}

/// A search in progress: the candidates, and the statistics of those already
/// evaluated. Candidate `i` is always recorded at position `i`.
pub struct Search {
    candidates: PossibleSplits,
    statistics: Statistics,
}

impl Search {
    pub closed spec fn spec_candidates(&self) -> Seq<Seq<u64>> {
        self.candidates.view()
    }

    pub closed spec fn spec_statistics(&self) -> Statistics {
        self.statistics
    }

    /// The statistics hold the first candidates, in order.
    pub open spec fn wf(&self) -> bool {
        &&& self.spec_statistics().wf()
        &&& self.spec_statistics().spec_len() <= self.spec_candidates().len()
        &&& self.spec_statistics().spec_splits() =~= self.spec_candidates().take(
            self.spec_statistics().spec_len() as int,
        )
    }

    /// Whether every candidate has been recorded.
    pub open spec fn spec_done(&self) -> bool {
        self.spec_statistics().spec_len() == self.spec_candidates().len()
    }

    /// A search over `candidates`, with nothing evaluated yet.
    pub fn new(candidates: PossibleSplits) -> (r: Search)
        ensures
            r.wf(),
            r.spec_candidates() == candidates.view(),
            r.spec_statistics().spec_len() == 0,
    {
        let n = candidates.len();
        let r = Search { candidates, statistics: Statistics::with_capacity(n) };
        assert(r.spec_statistics().spec_splits() =~= r.spec_candidates().take(0));
        r
    }

    /// The split to evaluate next, or `None` once all have been recorded.
    pub fn next_split(&self) -> (r: Option<&Vec<u64>>)
        requires
            self.wf(),
        ensures
            r is None <==> self.spec_done(),
            r matches Some(s) ==> s@ == self.spec_candidates()[self.spec_statistics().spec_len() as int],
    {
        let i = self.statistics.len();
        if i < self.candidates.len() {
            Some(self.candidates.split(i))
        } else {
            None
        }
    }

    /// Records the figures of the split that `next_split` returns.
    pub fn record(&mut self, metrics: CandidateMetrics)
        requires
            old(self).wf(),
            !old(self).spec_done(),
        ensures
            final(self).wf(),
            final(self).spec_candidates() == old(self).spec_candidates(),
            final(self).spec_statistics().spec_metrics() == old(
                self,
            ).spec_statistics().spec_metrics().push(metrics),
    {
        let i = self.statistics.len();
        let split = self.candidates.split(i).clone();
        assert(split@ =~= self.spec_candidates()[i as int]);
        let ghost before = self.spec_statistics().spec_splits();
        self.statistics.push(split, metrics);
        assert(self.spec_candidates().take(i + 1) =~= self.spec_candidates().take(i as int).push(
            self.spec_candidates()[i as int],
        ));
    }

    /// The completed batch.
    pub fn finish(self) -> (r: Statistics)
        requires
            self.wf(),
            self.spec_done(),
        ensures
            r.wf(),
            r.spec_splits() == self.spec_candidates(),
            r.spec_metrics() == self.spec_statistics().spec_metrics(),
    {
        assert(self.spec_candidates().take(self.spec_candidates().len() as int)
            =~= self.spec_candidates());
        self.statistics
    }
}

/// Two searches over the same configuration that receive the same figures, in
/// the same order, end with the same statistics: the same split at every
/// position, and the same figures beside it.
pub proof fn lemma_search_deterministic(
    steps: u64,
    fund_count: nat,
    metrics: Seq<CandidateMetrics>,
    a: Statistics,
    b: Statistics,
)
    requires
        a.spec_splits() == all_splits(steps, fund_count),
        b.spec_splits() == all_splits(steps, fund_count),
        a.spec_metrics() == metrics,
        b.spec_metrics() == metrics,
    ensures
        a.spec_splits() == b.spec_splits(),
        forall|i: int| 0 <= i < a.spec_len() ==> a.metrics_at(i) == b.metrics_at(i),
{
    assert forall|i: int| 0 <= i < a.spec_len() implies a.metrics_at(i) == b.metrics_at(i) by {
        assert(b.spec_len() == a.spec_len());
        assert(a.spec_metrics()[i] == a.metrics_at(i));
        assert(b.spec_metrics()[i] == b.metrics_at(i));
    }
}

} // verus!
