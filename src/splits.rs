//! Enumeration of candidate allocations.
//!
//! Weights are counted in whole granularity steps: with `steps` steps a weight
//! `w` stands for the fraction `w / steps`. A split over `n` funds is a sequence
//! of `n` step counts whose total is exactly `steps`. The first `n - 1` weights
//! run over the cartesian product of `0..=steps`; the last one is whatever is
//! left, and tuples whose partial sum already exceeds `steps` are dropped.
use itertools::Itertools;
use vstd::prelude::*;

verus! {

/// Sum of a sequence of step counts.
pub open spec fn seq_sum(t: Seq<u64>) -> int
    decreases t.len(),
{
    if t.len() == 0 {
        0
    } else {
        seq_sum(t.drop_last()) + t.last() as int
    }
}

/// Every tuple of `ts`, with `g` put in front.
pub open spec fn prepend_each(g: u64, ts: Seq<Seq<u64>>) -> Seq<Seq<u64>> {
    ts.map_values(|t: Seq<u64>| seq![g] + t)
}

/// For each value of `grid` in turn, every tuple of `rest` with that value in front.
pub open spec fn spread(grid: Seq<u64>, rest: Seq<Seq<u64>>) -> Seq<Seq<u64>>
    decreases grid.len(),
{
    if grid.len() == 0 {
        seq![]
    } else {
        spread(grid.drop_last(), rest) + prepend_each(grid.last(), rest)
    }
}

/// All `k`-tuples over `grid` in lexicographic order of positions: the first
/// component varies slowest, the last one fastest.
pub open spec fn cartesian(grid: Seq<u64>, k: nat) -> Seq<Seq<u64>>
    decreases k,
{
    if k == 0 {
        seq![seq![]]
    } else {
        spread(grid, cartesian(grid, (k - 1) as nat))
    }
}

/// The values a single weight may take: `0, 1, ..., steps`.
pub open spec fn step_grid(steps: u64) -> Seq<u64> {
    Seq::new(steps as nat + 1, |i: int| i as u64)
}

/// A tuple of leading weights with the remaining weight appended.
pub open spec fn complete(t: Seq<u64>, steps: u64) -> Seq<u64> {
    t.push((steps - seq_sum(t)) as u64)
}

/// The tuples of `ts` whose sum stays within `steps`, each completed, in order.
pub open spec fn completed(ts: Seq<Seq<u64>>, steps: u64) -> Seq<Seq<u64>>
    decreases ts.len(),
{
    if ts.len() == 0 {
        seq![]
    } else {
        let rest = completed(ts.drop_last(), steps);
        if seq_sum(ts.last()) <= steps {
            rest.push(complete(ts.last(), steps))
        } else {
            rest
        }
    }
}

/// Every split over `fund_count` funds at `steps` steps, in generation order.
pub open spec fn all_splits(steps: u64, fund_count: nat) -> Seq<Seq<u64>> {
    completed(cartesian(step_grid(steps), (fund_count - 1) as nat), steps)
}

/// Number of `k`-tuples of natural numbers whose sum is at most `m`.
///
/// A tuple with sum at most `m` either has sum at most `m - 1`, or sum exactly
/// `m`; the latter are fixed by their first `k - 1` components, which may be
/// any `(k - 1)`-tuple with sum at most `m`.
pub open spec fn count_tuples(m: nat, k: nat) -> nat
    decreases k, m,
{
    if k == 0 {
        1
    } else if m == 0 {
        count_tuples(0, (k - 1) as nat)
    } else {
        count_tuples(m, (k - 1) as nat) + count_tuples((m - 1) as nat, k)
    }
}

/// `b` raised to the power `e`.
pub open spec fn power(b: nat, e: nat) -> nat
    decreases e,
{
    if e == 0 {
        1
    } else {
        b * power(b, (e - 1) as nat)
    }
}

/// How many tuples of `ts` have a sum of at most `m`.
pub open spec fn count_within(ts: Seq<Seq<u64>>, m: int) -> nat
    decreases ts.len(),
{
    if ts.len() == 0 {
        0
    } else {
        count_within(ts.drop_last(), m) + if seq_sum(ts.last()) <= m {
            1nat
        } else {
            0nat
        }
    }
}

/// `count_tuples(m - g, k)` summed over `g < j`.
pub open spec fn leading_total(m: nat, j: nat, k: nat) -> nat
    decreases j,
{
    if j == 0 {
        0
    } else {
        leading_total(m, (j - 1) as nat, k) + count_tuples((m - (j - 1)) as nat, k)
    }
}

/// A sum of step counts is never negative.
pub proof fn lemma_sum_nonneg(t: Seq<u64>)
    ensures
        seq_sum(t) >= 0,
    decreases t.len(),
{
    if t.len() > 0 {
        lemma_sum_nonneg(t.drop_last());
    }
}

/// A prefix sums to no more than the whole sequence.
pub proof fn lemma_sum_prefix(t: Seq<u64>, j: int)
    requires
        0 <= j <= t.len(),
    ensures
        seq_sum(t.take(j)) <= seq_sum(t),
    decreases t.len(),
{
    if j < t.len() {
        assert(t.drop_last().take(j) =~= t.take(j));
        lemma_sum_prefix(t.drop_last(), j);
    } else {
        assert(t.take(j) =~= t);
    }
}

/// Putting `g` in front adds `g` to the sum.
pub proof fn lemma_sum_prepend(g: u64, t: Seq<u64>)
    ensures
        seq_sum(seq![g] + t) == g + seq_sum(t),
    decreases t.len(),
{
    let u = seq![g] + t;
    if t.len() > 0 {
        assert(u.drop_last() =~= seq![g] + t.drop_last());
        assert(u.last() == t.last());
        lemma_sum_prepend(g, t.drop_last());
    } else {
        assert(u.drop_last() =~= Seq::<u64>::empty());
        assert(u.last() == g);
        assert(seq_sum(u.drop_last()) == 0);
    }
}

proof fn lemma_count_within_concat(a: Seq<Seq<u64>>, b: Seq<Seq<u64>>, m: int)
    ensures
        count_within(a + b, m) == count_within(a, m) + count_within(b, m),
    decreases b.len(),
{
    if b.len() == 0 {
        assert(a + b =~= a);
    } else {
        assert((a + b).drop_last() =~= a + b.drop_last());
        lemma_count_within_concat(a, b.drop_last(), m);
    }
}

proof fn lemma_count_within_prepend(g: u64, ts: Seq<Seq<u64>>, m: int)
    ensures
        count_within(prepend_each(g, ts), m) == if g <= m {
            count_within(ts, m - g)
        } else {
            0
        },
    decreases ts.len(),
{
    if ts.len() > 0 {
        assert(prepend_each(g, ts).drop_last() =~= prepend_each(g, ts.drop_last()));
        lemma_count_within_prepend(g, ts.drop_last(), m);
        lemma_sum_prepend(g, ts.last());
        lemma_sum_nonneg(ts.last());
    }
}

proof fn lemma_count_within_len(ts: Seq<Seq<u64>>, m: int)
    ensures
        count_within(ts, m) <= ts.len(),
    decreases ts.len(),
{
    if ts.len() > 0 {
        lemma_count_within_len(ts.drop_last(), m);
    }
}

proof fn lemma_leading_shift(m: nat, j: nat, k: nat)
    requires
        1 <= j <= m,
    ensures
        leading_total(m, j + 1, k) == count_tuples(m, k) + leading_total((m - 1) as nat, j, k),
    decreases j,
{
    let jm = (j - 1) as nat;
    assert(leading_total(m, j + 1, k) == leading_total(m, j, k) + count_tuples((m - j) as nat, k));
    assert(leading_total((m - 1) as nat, j, k) == leading_total((m - 1) as nat, jm, k)
        + count_tuples(((m - 1) as nat - jm) as nat, k));
    assert(((m - 1) as nat - jm) as nat == (m - j) as nat);
    if j > 1 {
        lemma_leading_shift(m, jm, k);
        assert(jm + 1 == j);
    } else {
        assert(leading_total(m, 1, k) == leading_total(m, 0, k) + count_tuples(m, k));
        assert(leading_total((m - 1) as nat, 0, k) == 0);
    }
}

/// Summing over the first weight gives the next count.
proof fn lemma_leading_total_full(m: nat, k: nat)
    ensures
        leading_total(m, m + 1, k) == count_tuples(m, k + 1),
    decreases m,
{
    if m > 0 {
        let p = (m - 1) as nat;
        lemma_leading_shift(m, m, k);
        lemma_leading_total_full(p, k);
        assert(p + 1 == m);
        assert(count_tuples(m, k + 1) == count_tuples(m, k) + count_tuples(p, k + 1));
    } else {
        assert(leading_total(0, 1, k) == leading_total(0, 0, k) + count_tuples(0, k));
        assert(count_tuples(0, k + 1) == count_tuples(0, k));
    }
}

proof fn lemma_spread_count(s: u64, j: nat, rest: Seq<Seq<u64>>, k: nat, m: nat)
    requires
        j <= s + 1,
        m <= s,
        forall|mm: int| 0 <= mm <= s ==> count_within(rest, mm) == count_tuples(mm as nat, k),
    ensures
        count_within(spread(step_grid(s).take(j as int), rest), m as int) == leading_total(
            m,
            if j <= m + 1 {
                j
            } else {
                m + 1
            },
            k,
        ),
    decreases j,
{
    let g = step_grid(s).take(j as int);
    if j > 0 {
        assert(g.drop_last() =~= step_grid(s).take(j - 1));
        lemma_spread_count(s, (j - 1) as nat, rest, k, m);
        lemma_count_within_concat(spread(g.drop_last(), rest), prepend_each(g.last(), rest), m as int);
        lemma_count_within_prepend(g.last(), rest, m as int);
    }
}

/// Number of tuples of the grid with a sum within `m`.
pub proof fn lemma_cartesian_count(s: u64, k: nat, m: nat)
    requires
        m <= s,
    ensures
        count_within(cartesian(step_grid(s), k), m as int) == count_tuples(m, k),
    decreases k,
{
    if k == 0 {
        let c = cartesian(step_grid(s), k);
        assert(c.drop_last() =~= Seq::<Seq<u64>>::empty());
        assert(c.last() =~= Seq::<u64>::empty());
        assert(seq_sum(c.last()) == 0);
        assert(count_within(c.drop_last(), m as int) == 0);
    } else {
        let rest = cartesian(step_grid(s), (k - 1) as nat);
        assert forall|mm: int| 0 <= mm <= s implies count_within(rest, mm) == count_tuples(
            mm as nat,
            (k - 1) as nat,
        ) by {
            lemma_cartesian_count(s, (k - 1) as nat, mm as nat);
        }
        assert(step_grid(s).take(s + 1) =~= step_grid(s));
        lemma_spread_count(s, (s + 1) as nat, rest, (k - 1) as nat, m);
        lemma_leading_total_full(m, (k - 1) as nat);
        assert(cartesian(step_grid(s), k) == spread(step_grid(s), rest));
        assert((k - 1) as nat + 1 == k);
    }
}

proof fn lemma_spread_len(grid: Seq<u64>, rest: Seq<Seq<u64>>)
    ensures
        spread(grid, rest).len() == grid.len() * rest.len(),
    decreases grid.len(),
{
    if grid.len() > 0 {
        lemma_spread_len(grid.drop_last(), rest);
        assert(grid.len() * rest.len() == (grid.len() - 1) * rest.len() + rest.len())
            by (nonlinear_arith);
    }
}

/// The cartesian power has `grid.len()` to the power `k` tuples.
pub proof fn lemma_cartesian_len(grid: Seq<u64>, k: nat)
    ensures
        cartesian(grid, k).len() == power(grid.len(), k),
    decreases k,
{
    if k > 0 {
        lemma_cartesian_len(grid, (k - 1) as nat);
        lemma_spread_len(grid, cartesian(grid, (k - 1) as nat));
    }
}

proof fn lemma_spread_elements(grid: Seq<u64>, rest: Seq<Seq<u64>>, k: nat)
    requires
        forall|i: int| 0 <= i < rest.len() ==> #[trigger] rest[i].len() == k,
    ensures
        forall|i: int|
            0 <= i < spread(grid, rest).len() ==> #[trigger] spread(grid, rest)[i].len() == k + 1,
    decreases grid.len(),
{
    if grid.len() > 0 {
        lemma_spread_elements(grid.drop_last(), rest, k);
        let a = spread(grid.drop_last(), rest);
        let b = prepend_each(grid.last(), rest);
        assert forall|i: int| 0 <= i < b.len() implies #[trigger] b[i].len() == k + 1 by {
            assert(b[i] == seq![grid.last()] + rest[i]);
        }
        assert forall|i: int| 0 <= i < (a + b).len() implies #[trigger] (a + b)[i].len() == k
            + 1 by {
            if i < a.len() {
                assert((a + b)[i] == a[i]);
            } else {
                assert((a + b)[i] == b[i - a.len()]);
            }
        }
    }
}

/// Every tuple of the cartesian power has `k` components.
pub proof fn lemma_cartesian_elements(grid: Seq<u64>, k: nat)
    ensures
        forall|i: int|
            0 <= i < cartesian(grid, k).len() ==> #[trigger] cartesian(grid, k)[i].len() == k,
    decreases k,
{
    if k > 0 {
        lemma_cartesian_elements(grid, (k - 1) as nat);
        lemma_spread_elements(grid, cartesian(grid, (k - 1) as nat), (k - 1) as nat);
    }
}

proof fn lemma_completed_shape(ts: Seq<Seq<u64>>, steps: u64, k: nat)
    requires
        forall|i: int| 0 <= i < ts.len() ==> #[trigger] ts[i].len() == k,
    ensures
        completed(ts, steps).len() == count_within(ts, steps as int),
        forall|i: int|
            0 <= i < completed(ts, steps).len() ==> (#[trigger] completed(ts, steps)[i]).len()
                == k + 1 && seq_sum(completed(ts, steps)[i]) == steps,
    decreases ts.len(),
{
    if ts.len() > 0 {
        lemma_completed_shape(ts.drop_last(), steps, k);
        let t = ts.last();
        if seq_sum(t) <= steps {
            lemma_sum_nonneg(t);
            assert(complete(t, steps).drop_last() =~= t);
        }
    }
}

/// Shape of every generated split: `fund_count` weights adding up to `steps`.
pub proof fn lemma_all_splits_shape(steps: u64, fund_count: nat)
    requires
        fund_count >= 1,
    ensures
        forall|i: int|
            0 <= i < all_splits(steps, fund_count).len() ==> (#[trigger] all_splits(
                steps,
                fund_count,
            )[i]).len() == fund_count && seq_sum(all_splits(steps, fund_count)[i]) == steps,
{
    let k = (fund_count - 1) as nat;
    lemma_cartesian_elements(step_grid(steps), k);
    lemma_completed_shape(cartesian(step_grid(steps), k), steps, k);
}

/// Number of splits generated for `fund_count` funds at `steps` steps: the
/// number of `(fund_count - 1)`-tuples over `0..=steps` whose sum is within
/// `steps`, as a brute enumeration of the cartesian product counts them, which
/// is also `count_tuples`.
pub proof fn lemma_all_splits_count(steps: u64, fund_count: nat)
    requires
        fund_count >= 1,
    ensures
        all_splits(steps, fund_count).len() == count_within(
            cartesian(step_grid(steps), (fund_count - 1) as nat),
            steps as int,
        ),
        all_splits(steps, fund_count).len() == count_tuples(steps as nat, (fund_count - 1) as nat),
{
    let k = (fund_count - 1) as nat;
    lemma_cartesian_elements(step_grid(steps), k);
    lemma_completed_shape(cartesian(step_grid(steps), k), steps, k);
    lemma_cartesian_count(steps, k, steps as nat);
}

/// Relies on itertools' `multi_cartesian_product`: the product of `k` copies of
/// `grid`, in lexicographic order of positions (the last component varies
/// fastest), as its documentation shows.
#[verifier::external_body]
fn cartesian_power(grid: &Vec<u64>, k: usize) -> (r: Vec<Vec<u64>>)
    requires
        k >= 1,
        grid.len() >= 1,
    ensures
        r@.len() == cartesian(grid@, k as nat).len(),
        forall|i: int| 0 <= i < r@.len() ==> #[trigger] r@[i]@ == cartesian(grid@, k as nat)[i],
{
    std::iter::repeat(grid.clone()).take(k).multi_cartesian_product().collect()
}

proof fn lemma_power_grows(b: nat, e: nat, f: nat)
    requires
        b >= 1,
        e <= f,
    ensures
        power(b, e) <= power(b, f),
        power(b, f) >= 1,
    decreases f,
{
    if f > 0 {
        let p = power(b, (f - 1) as nat);
        if e < f {
            lemma_power_grows(b, e, (f - 1) as nat);
        } else {
            lemma_power_grows(b, 0, (f - 1) as nat);
        }
        assert(b * p >= p) by (nonlinear_arith)
            requires
                b >= 1,
                p >= 1,
        ;
    }
}

proof fn lemma_power_base(b: nat, f: nat)
    requires
        b >= 1,
        f >= 1,
    ensures
        b <= power(b, f),
{
    lemma_power_grows(b, 1, f);
    assert(power(b, 0) == 1);
    assert(power(b, 1) == b * power(b, 0));
}

proof fn lemma_count_monotone(m: nat, k: nat, mm: nat, kk: nat)
    requires
        m <= mm,
        k <= kk,
    ensures
        count_tuples(m, k) <= count_tuples(mm, kk),
        count_tuples(m, k) >= 1,
    decreases kk + mm,
{
    if kk > k {
        lemma_count_monotone(m, k, mm, (kk - 1) as nat);
        if mm > 0 {
            lemma_count_monotone(0, 0, (mm - 1) as nat, kk);
        }
    } else if mm > m {
        lemma_count_monotone(m, k, (mm - 1) as nat, kk);
        if kk > 0 {
            lemma_count_monotone(0, 0, mm, (kk - 1) as nat);
        }
    } else if k > 0 {
        lemma_count_monotone(0, 0, m, (k - 1) as nat);
        if m > 0 {
            lemma_count_monotone(0, 0, (m - 1) as nat, k);
        }
    }
}

/// The number of candidates never exceeds the number of combinations walked.
pub proof fn lemma_count_within_power(s: u64, k: nat)
    ensures
        count_tuples(s as nat, k) <= power(s as nat + 1, k),
{
    lemma_cartesian_count(s, k, s as nat);
    lemma_count_within_len(cartesian(step_grid(s), k), s as int);
    lemma_cartesian_len(step_grid(s), k);
}

/// Why a search configuration is refused.
#[derive(Debug, Clone, Copy, PartialEq, Eq, Structural)]
pub enum ConfigError {
    /// The granularity does not divide the unit into at least one step.
    InvalidGranularity,
    /// Fewer than two funds were asked for.
    InvalidFundCount,
    /// The cartesian product to walk is larger than the ceiling allowed.
    TooManyCombinations,
}

/// A validated search configuration: `steps` granularity steps make up the
/// whole, over `fund_count` funds.
pub struct SplitConfig {
    steps: u64,
    fund_count: usize,
}

impl SplitConfig {
    pub closed spec fn spec_steps(&self) -> u64 {
        self.steps
    }

    pub closed spec fn spec_fund_count(&self) -> usize {
        self.fund_count
    }

    /// At least one step, at least two funds, and a product of leading weights
    /// whose size fits in 64 bits.
    pub open spec fn wf(&self) -> bool {
        &&& self.spec_steps() >= 1
        &&& self.spec_fund_count() >= 2
        &&& power(self.spec_steps() as nat + 1, (self.spec_fund_count() - 1) as nat) <= u64::MAX
    }

    /// Validates a configuration. `ceiling` bounds the number of combinations of
    /// leading weights, `(steps + 1)` to the power `fund_count - 1`, that a
    /// search may walk.
    pub fn new(steps: u64, fund_count: usize, ceiling: u64) -> (r: Result<SplitConfig, ConfigError>)
        ensures
            steps == 0 ==> r == Err::<SplitConfig, ConfigError>(ConfigError::InvalidGranularity),
            steps >= 1 && fund_count < 2 ==> r == Err::<SplitConfig, ConfigError>(
                ConfigError::InvalidFundCount,
            ),
            steps >= 1 && fund_count >= 2 && power(steps as nat + 1, (fund_count - 1) as nat)
                > ceiling ==> r == Err::<SplitConfig, ConfigError>(
                ConfigError::TooManyCombinations,
            ),
            steps >= 1 && fund_count >= 2 && power(steps as nat + 1, (fund_count - 1) as nat)
                <= ceiling ==> r is Ok,
            r matches Ok(c) ==> c.wf() && c.spec_steps() == steps && c.spec_fund_count()
                == fund_count,
    {
        if steps == 0 {
            return Err(ConfigError::InvalidGranularity);
        }
        if fund_count < 2 {
            return Err(ConfigError::InvalidFundCount);
        }
        let k: usize = fund_count - 1;
        if steps == u64::MAX || ceiling == 0 {
            proof {
                lemma_power_base(steps as nat + 1, k as nat);
            }
            return Err(ConfigError::TooManyCombinations);
        }
        let base: u64 = steps + 1;
        let mut acc: u64 = 1;
        let mut e: usize = 0;
        while e < k
            invariant
                e <= k,
                steps >= 1,
                fund_count >= 2,
                k == fund_count - 1,
                base == steps + 1,
                acc == power(base as nat, e as nat),
                acc <= ceiling,
            decreases k - e,
        {
            proof {
                assert(power(base as nat, (e + 1) as nat) == base * power(base as nat, e as nat));
                assert(base * acc == acc * base) by (nonlinear_arith);
            }
            match acc.checked_mul(base) {
                Some(next) => {
                    if next > ceiling {
                        proof {
                            lemma_power_grows(base as nat, (e + 1) as nat, k as nat);
                        }
                        return Err(ConfigError::TooManyCombinations);
                    }
                    acc = next;
                },
                None => {
                    proof {
                        lemma_power_grows(base as nat, (e + 1) as nat, k as nat);
                    }
                    return Err(ConfigError::TooManyCombinations);
                },
            }
            e = e + 1;
        }
        Ok(SplitConfig { steps, fund_count })
    }

    pub fn steps(&self) -> (r: u64)
        ensures
            r == self.spec_steps(),
    {
        self.steps
    }

    pub fn fund_count(&self) -> (r: usize)
        ensures
            r == self.spec_fund_count(),
    {
        self.fund_count
    }

    /// The exact number of splits that generation yields, known beforehand.
    pub fn candidate_count(&self) -> (r: u64)
        requires
            self.wf(),
        ensures
            r == count_tuples(self.spec_steps() as nat, (self.spec_fund_count() - 1) as nat),
    {
        let s = self.steps;
        let k: usize = self.fund_count - 1;
        proof {
            lemma_count_within_power(s, k as nat);
        }
        proof {
            lemma_power_base(s as nat + 1, k as nat);
        }
        let mut row: Vec<u64> = Vec::new();
        let mut m: u64 = 0;
        while m <= s
            invariant
                m <= s + 1,
                s < u64::MAX,
                row@.len() == m,
                forall|j: int| 0 <= j < m ==> #[trigger] row@[j] == 1,
            decreases s + 1 - m,
        {
            row.push(1);
            m = m + 1;
        }
        let l = row.len();
        let mut r: usize = 0;
        while r < k
            invariant
                r <= k,
                k == self.spec_fund_count() - 1,
                s == self.spec_steps(),
                row@.len() == s + 1,
                l == row@.len(),
                count_tuples(s as nat, k as nat) <= u64::MAX,
                forall|j: int| 0 <= j <= s ==> #[trigger] row@[j] == count_tuples(j as nat, r as nat),
            decreases k - r,
        {
            let ghost prev = row@;
            let mut j: usize = 1;
            assert(count_tuples(0, (r + 1) as nat) == count_tuples(0, r as nat));
            while j < l
                invariant
                    1 <= j <= row@.len(),
                    l == row@.len(),
                    row@.len() == s + 1,
                    prev.len() == s + 1,
                    r < k,
                    count_tuples(s as nat, k as nat) <= u64::MAX,
                    forall|i: int| 0 <= i < j ==> #[trigger] row@[i] == count_tuples(i as nat, (r + 1) as nat),
                    forall|i: int| j <= i <= s ==> #[trigger] row@[i] == prev[i],
                    forall|i: int| 0 <= i <= s ==> #[trigger] prev[i] == count_tuples(i as nat, r as nat),
                decreases row@.len() - j,
            {
                proof {
                    lemma_count_monotone(j as nat, (r + 1) as nat, s as nat, k as nat);
                    assert(count_tuples(j as nat, (r + 1) as nat) == count_tuples(j as nat, r as nat)
                        + count_tuples((j - 1) as nat, (r + 1) as nat));
                }
                let v = row[j] + row[j - 1];
                row.set(j, v);
                j = j + 1;
            }
            r = r + 1;
        }
        row[l - 1]
    }
}

/// The splits of a search, in generation order.
pub struct PossibleSplits {
    possible_splits: Vec<Vec<u64>>,
    split_len: usize,
}

impl PossibleSplits {
    pub closed spec fn view(&self) -> Seq<Seq<u64>> {
        Seq::new(self.possible_splits@.len(), |i: int| self.possible_splits@[i]@)
    }

    pub closed spec fn spec_split_len(&self) -> usize {
        self.split_len
    }

    /// Number of splits.
    pub fn len(&self) -> (r: usize)
        ensures
            r == self.view().len(),
    {
        self.possible_splits.len()
    }

    /// Number of weights in each split.
    pub fn split_len(&self) -> (r: usize)
        ensures
            r == self.spec_split_len(),
    {
        self.split_len
    }

    /// The split at position `i`.
    pub fn split(&self, i: usize) -> (r: &Vec<u64>)
        requires
            i < self.view().len(),
        ensures
            r@ == self.view()[i as int],
    {
        &self.possible_splits[i]
    }
}

/// Sum of `t` when it stays within `bound`.
fn sum_within(t: &Vec<u64>, bound: u64) -> (r: Option<u64>)
    ensures
        match r {
            Some(x) => x == seq_sum(t@) && x <= bound,
            None => seq_sum(t@) > bound,
        },
{
    let mut acc: u64 = 0;
    let mut j: usize = 0;
    while j < t.len()
        invariant
            j <= t@.len(),
            acc == seq_sum(t@.take(j as int)),
            acc <= bound,
        decreases t@.len() - j,
    {
        assert(t@.take(j + 1).drop_last() =~= t@.take(j as int));
        if t[j] > bound - acc {
            proof {
                lemma_sum_prefix(t@, j + 1);
            }
            return None;
        }
        acc = acc + t[j];
        j = j + 1;
    }
    assert(t@.take(j as int) =~= t@);
    Some(acc)
}

/// Every split of the configuration, in the order of the cartesian product of
/// the leading weights.
pub fn get_possible_splits(config: &SplitConfig) -> (r: PossibleSplits)
    requires
        config.wf(),
    ensures
        r.view() == all_splits(config.spec_steps(), config.spec_fund_count() as nat),
        r.spec_split_len() == config.spec_fund_count(),
{
    let s = config.steps();
    let n = config.fund_count();
    proof {
        lemma_power_base(s as nat + 1, (n - 1) as nat);
    }
    let mut grid: Vec<u64> = Vec::new();
    let mut g: u64 = 0;
    while g <= s
        invariant
            g <= s + 1,
            s < u64::MAX,
            grid@.len() == g,
            forall|i: int| 0 <= i < g ==> #[trigger] grid@[i] == i as u64,
        decreases s + 1 - g,
    {
        grid.push(g);
        g = g + 1;
    }
    assert(grid@ =~= step_grid(s));
    let product = cartesian_power(&grid, n - 1);
    let ghost ts = cartesian(step_grid(s), (n - 1) as nat);
    let mut splits: Vec<Vec<u64>> = Vec::new();
    let mut i: usize = 0;
    while i < product.len()
        invariant
            i <= product@.len(),
            product@.len() == ts.len(),
            forall|j: int| 0 <= j < product@.len() ==> #[trigger] product@[j]@ == ts[j],
            Seq::new(splits@.len(), |j: int| splits@[j]@) == completed(ts.take(i as int), s),
        decreases product@.len() - i,
    {
        assert(ts.take(i + 1).drop_last() =~= ts.take(i as int));
        assert(ts.take(i + 1).last() == ts[i as int]);
        let ghost before = Seq::new(splits@.len(), |j: int| splits@[j]@);
        let t = &product[i];
        match sum_within(t, s) {
            Some(total) => {
                let mut split = t.clone();
                assert(split@ =~= t@);
                split.push(s - total);
                splits.push(split);
                assert(Seq::new(splits@.len(), |j: int| splits@[j]@) =~= before.push(
                    complete(ts[i as int], s),
                ));
            },
            None => {},
        }
        i = i + 1;
    }
    assert(ts.take(i as int) =~= ts);
    PossibleSplits { possible_splits: splits, split_len: n }
}

} // verus!
