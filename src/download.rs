//! What happened to each ID of a chunk, and the totals over a run.
use vstd::prelude::*;
use crate::plan::{DownloadPlan, chunk_spec, needed_ids};

verus! {

/// What happened to one ID of a chunk.
#[derive(Debug)]
pub enum DownloadOutcome {
    /// The plan did not ask for it.
    Skipped,
    /// Fetched and written.
    Success,
    /// Fetching or writing it failed, for the reason given.
    Failed(String),
}

pub ghost enum OutcomeView {
    Skipped,
    Success,
    Failed(Seq<char>),
}

impl View for DownloadOutcome {
    type V = OutcomeView;

    open spec fn view(&self) -> OutcomeView {
        match self {
            DownloadOutcome::Skipped => OutcomeView::Skipped,
            DownloadOutcome::Success => OutcomeView::Success,
            DownloadOutcome::Failed(m) => OutcomeView::Failed(m@),
        }
    }
}

/// The outcome that one fetch attempt reports.
pub open spec fn attempt_outcome(res: Result<(), String>) -> OutcomeView {
    match res {
        Ok(()) => OutcomeView::Success,
        Err(m) => OutcomeView::Failed(m@),
    }
}

/// Outcomes for a chunk, given the results of its fetch attempts in order:
/// the `j`-th set entry takes the `j`-th result, an unset entry is skipped.
pub open spec fn outcomes_spec(chunk: Seq<bool>, results: Seq<Result<(), String>>) -> Seq<OutcomeView>
    decreases chunk.len(),
{
    if chunk.len() == 0 {
        Seq::empty()
    } else if chunk.last() {
        outcomes_spec(chunk.drop_last(), results.drop_last()).push(attempt_outcome(results.last()))
    } else {
        outcomes_spec(chunk.drop_last(), results).push(OutcomeView::Skipped)
    }
}

proof fn lemma_outcomes_len(chunk: Seq<bool>, results: Seq<Result<(), String>>, first: int)
    requires
        results.len() == needed_ids(chunk, first).len(),
    ensures
        outcomes_spec(chunk, results).len() == chunk.len(),
    decreases chunk.len(),
{
    if chunk.len() > 0 {
        if chunk.last() {
            lemma_outcomes_len(chunk.drop_last(), results.drop_last(), first);
        } else {
            lemma_outcomes_len(chunk.drop_last(), results, first);
        }
    }
}

/// Pairs each ID of chunk `k` with its outcome. `results` holds, in order,
/// the result of each attempt on the IDs that `plan.fetch_ids(k)` lists.
pub fn chunk_outcomes(plan: &DownloadPlan, k: usize, results: &Vec<Result<(), String>>) -> (r: Vec<DownloadOutcome>)
    requires
        plan.well_formed(),
        k * plan@.chunk_size < plan@.needs.len(),
        results@.len() == needed_ids(chunk_spec(plan@.needs, plan@.chunk_size, k as nat), k * plan@.chunk_size).len(),
    ensures
        r@.len() == plan@.chunk_size,
        forall|j: int| 0 <= j < r@.len() ==> #[trigger] r@[j]@
            == outcomes_spec(chunk_spec(plan@.needs, plan@.chunk_size, k as nat), results@)[j],
{
    let (first, end) = plan.chunk_range(k);
    assert((k + 1) * plan@.chunk_size == k * plan@.chunk_size + plan@.chunk_size) by (nonlinear_arith);
    let ghost chunk = chunk_spec(plan@.needs, plan@.chunk_size, k as nat);
    let ghost fid = first as int;
    let mut out: Vec<DownloadOutcome> = Vec::new();
    let mut i: usize = first;
    let mut m: usize = 0;
    let nres = results.len();
    while i < end
        invariant
            first <= i <= end <= plan@.needs.len(),
            first == k * plan@.chunk_size,
            end == (k + 1) * plan@.chunk_size,
            fid == first,
            nres == results@.len(),
            chunk == plan@.needs.subrange(first as int, end as int),
            results@.len() == needed_ids(chunk, fid).len(),
            m == needed_ids(chunk.subrange(0, i - first), fid).len(),
            out@.len() == i - first,
            forall|j: int| 0 <= j < out@.len() ==> #[trigger] out@[j]@
                == outcomes_spec(chunk.subrange(0, i - first), results@.subrange(0, m as int))[j],
        decreases end - i,
    {
        let ghost prefix = chunk.subrange(0, i + 1 - first);
        let ghost before = chunk.subrange(0, i - first);
        assert(prefix.drop_last() =~= before);
        assert(prefix.last() == plan@.needs[i as int]);
        proof {
            lemma_needed_prefix(chunk, fid, (i + 1 - first) as nat);
            lemma_outcomes_len(before, results@.subrange(0, m as int), fid);
        }
        if plan.needs(i) {
            assert(needed_ids(prefix, fid) == needed_ids(before, fid).push((fid + prefix.len() - 1) as usize));
            assert(m < results@.len());
            let o = match &results[m] {
                Ok(()) => DownloadOutcome::Success,
                Err(msg) => DownloadOutcome::Failed(msg.clone()),
            };
            out.push(o);
            proof {
                let rs = results@.subrange(0, m + 1);
                assert(rs.drop_last() =~= results@.subrange(0, m as int));
            }
            m += 1;
        } else {
            out.push(DownloadOutcome::Skipped);
        }
        i += 1;
    }
    proof {
        assert(chunk.subrange(0, end - first) =~= chunk);
        assert(results@.subrange(0, m as int) =~= results@);
    }
    out
}

/// Counting the needed IDs of a prefix never exceeds the count of the whole chunk.
proof fn lemma_needed_prefix(chunk: Seq<bool>, first: int, n: nat)
    requires
        n <= chunk.len(),
    ensures
        needed_ids(chunk.subrange(0, n as int), first).len() <= needed_ids(chunk, first).len(),
    decreases chunk.len() - n,
{
    if n < chunk.len() {
        lemma_needed_prefix(chunk, first, n + 1);
        let p = chunk.subrange(0, n as int + 1);
        assert(p.drop_last() =~= chunk.subrange(0, n as int));
    } else {
        assert(chunk.subrange(0, n as int) =~= chunk);
    }
}

/// How many of `s` satisfy `f`.
pub open spec fn count_where(s: Seq<OutcomeView>, f: spec_fn(OutcomeView) -> bool) -> nat
    decreases s.len(),
{
    if s.len() == 0 {
        0
    } else {
        count_where(s.drop_last(), f) + if f(s.last()) { 1nat } else { 0nat }
    }
}

pub open spec fn outcome_views(outcomes: Seq<DownloadOutcome>) -> Seq<OutcomeView> {
    outcomes.map_values(|o: DownloadOutcome| o@)
}

/// Totals over the outcomes of a run.
#[derive(Debug, Clone, Copy)]
pub struct RunReport {
    pub succeeded: usize,
    pub failed: usize,
    pub skipped: usize,
}

proof fn lemma_count_bound(s: Seq<OutcomeView>, f: spec_fn(OutcomeView) -> bool)
    ensures
        count_where(s, f) <= s.len(),
    decreases s.len(),
{
    if s.len() > 0 {
        lemma_count_bound(s.drop_last(), f);
    }
}

/// Counts each kind of outcome.
pub fn tally(outcomes: &Vec<DownloadOutcome>) -> (r: RunReport)
    ensures
        r.succeeded == count_where(outcome_views(outcomes@), |o: OutcomeView| o is Success),
        r.failed == count_where(outcome_views(outcomes@), |o: OutcomeView| o is Failed),
        r.skipped == count_where(outcome_views(outcomes@), |o: OutcomeView| o is Skipped),
{
    let ghost is_ok = |o: OutcomeView| o is Success;
    let ghost is_err = |o: OutcomeView| o is Failed;
    let ghost is_skip = |o: OutcomeView| o is Skipped;
    let ghost all = outcome_views(outcomes@);
    let mut report = RunReport { succeeded: 0, failed: 0, skipped: 0 };
    let mut i: usize = 0;
    while i < outcomes.len()
        invariant
            i <= outcomes@.len(),
            all == outcome_views(outcomes@),
            is_ok == (|o: OutcomeView| o is Success),
            is_err == (|o: OutcomeView| o is Failed),
            is_skip == (|o: OutcomeView| o is Skipped),
            report.succeeded == count_where(all.subrange(0, i as int), is_ok),
            report.failed == count_where(all.subrange(0, i as int), is_err),
            report.skipped == count_where(all.subrange(0, i as int), is_skip),
        decreases outcomes@.len() - i,
    {
        let ghost next = all.subrange(0, i + 1);
        assert(next.drop_last() =~= all.subrange(0, i as int));
        assert(next.last() == outcomes@[i as int]@);
        proof {
            lemma_count_bound(all.subrange(0, i as int), is_ok);
            lemma_count_bound(all.subrange(0, i as int), is_err);
            lemma_count_bound(all.subrange(0, i as int), is_skip);
        }
        match &outcomes[i] {
            DownloadOutcome::Success => {
                report.succeeded += 1;
            },
            DownloadOutcome::Failed(_) => {
                report.failed += 1;
            },
            DownloadOutcome::Skipped => {
                report.skipped += 1;
            },
        }
        i += 1;
    }
    assert(all.subrange(0, i as int) =~= all);
    report
}

} // verus!
