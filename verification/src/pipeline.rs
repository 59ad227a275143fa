//! The aggregator: the state machine of the pipeline's event loop.
//!
//! The loop around it alternates between two events, whichever is
//! ready first: a candidate arrives from the channel and a
//! verification unit is spawned for it, or a unit completes and its
//! outcome is classified.  The aggregator records the decisions; the
//! loop performs them.  The ghost history ties the two together: every
//! accepted candidate is handed to exactly one unit, and the run is
//! finished only when every unit has reported back.

use vstd::prelude::*;

use crate::addr::{candidates_of, Endpoint, InputRecord};
use crate::geo::{Outcome, ProxyResult};
use crate::report::{sort_by_time, sort_results, sorted_by_time, time_le};
use vstd::seq_lib::lemma_multiset_commutative;

verus! {

/// How one verification unit ended: it ran to completion and returned
/// an outcome, or it failed to run at all.
#[derive(Debug, Clone, PartialEq, Eq)]
pub enum Completion {
    Finished(Outcome),
    Fault(String),
}

/// The classification of one completion, reported as an event: a
/// working proxy joins the result set; a failed verification and an
/// execution fault are reported and discarded.
#[derive(Debug, Clone, PartialEq, Eq)]
pub enum Bucket {
    Success(ProxyResult),
    Failure(Endpoint, String),
    Fault(String),
}

/// What one completion contributes to the result set: its record when
/// it is a success, nothing otherwise.
pub open spec fn one_success(c: Completion) -> Seq<ProxyResult> {
    match c {
        Completion::Finished(Outcome::Success(r)) => seq![r],
        _ => Seq::<ProxyResult>::empty(),
    }
}

/// The successful results among a history of completions, in the
/// order the completions arrived.
pub open spec fn successes_of(cs: Seq<Completion>) -> Seq<ProxyResult>
    decreases cs.len(),
{
    if cs.len() == 0 {
        Seq::empty()
    } else {
        successes_of(cs.drop_last()) + one_success(cs.last())
    }
}

/// The aggregator's state: the accumulating result set, the count of
/// verification units still outstanding, and whether the candidate
/// source has closed.  The ghost history holds what flowed through:
/// the candidates accepted, the endpoints handed to units, and the
/// completions received.
pub struct Aggregator {
    pub successes: Vec<ProxyResult>,
    pub outstanding: u64,
    pub source_done: bool,
    pub accepted: Ghost<Seq<Endpoint>>,
    pub spawned: Ghost<Seq<Endpoint>>,
    pub completions: Ghost<Seq<Completion>>,
}

impl Aggregator {
    /// The state's invariant: units are spawned for exactly the
    /// accepted candidates, the outstanding count is what was spawned
    /// and has not completed, and the result set is exactly the
    /// successes among the completions.
    pub open spec fn wf(self) -> bool {
        &&& self.spawned@ == self.accepted@
        &&& self.completions@.len() + self.outstanding == self.spawned@.len()
        &&& self.successes@ == successes_of(self.completions@)
    }

    /// The run is finished: the source has closed and no unit is
    /// outstanding.
    pub open spec fn finished(self) -> bool {
        self.source_done && self.outstanding == 0
    }

    pub fn new() -> (a: Self)
        ensures
            a.wf(),
            !a.source_done,
            a.accepted@ == Seq::<Endpoint>::empty(),
            a.completions@ == Seq::<Completion>::empty(),
            a.outstanding == 0,
    {
        Aggregator {
            successes: Vec::new(),
            outstanding: 0,
            source_done: false,
            accepted: Ghost(Seq::empty()),
            spawned: Ghost(Seq::empty()),
            completions: Ghost(Seq::empty()),
        }
    }

    /// Accepts the next candidate from the channel.  The returned
    /// endpoint is the one to hand to a fresh verification unit: each
    /// candidate is handed to exactly one.
    pub fn accept(&mut self, e: Endpoint) -> (unit: Endpoint)
        requires
            old(self).wf(),
            !old(self).source_done,
            old(self).outstanding < u64::MAX,
        ensures
            final(self).wf(),
            unit == e,
            final(self).accepted@ == old(self).accepted@.push(e),
            final(self).spawned@ == old(self).spawned@.push(e),
            final(self).completions@ == old(self).completions@,
            final(self).successes@ == old(self).successes@,
            final(self).outstanding == old(self).outstanding + 1,
            final(self).source_done == old(self).source_done,
    {
        self.outstanding = self.outstanding + 1;
        proof {
            self.accepted@ = self.accepted@.push(e);
            self.spawned@ = self.spawned@.push(e);
        }
        e
    }

    /// Takes one unit's completion, classifies it into exactly one of
    /// the three buckets, and appends the result to the result set
    /// exactly when it is a success.
    pub fn complete(&mut self, c: Completion) -> (ev: Bucket)
        requires
            old(self).wf(),
            old(self).outstanding > 0,
        ensures
            final(self).wf(),
            final(self).completions@ == old(self).completions@.push(c),
            final(self).accepted@ == old(self).accepted@,
            final(self).spawned@ == old(self).spawned@,
            final(self).outstanding == old(self).outstanding - 1,
            final(self).source_done == old(self).source_done,
            final(self).successes@ == successes_of(old(self).completions@.push(c)),
            (c matches Completion::Finished(Outcome::Success(r)) ==> ev matches Bucket::Success(e)
                && e.ip == r.ip && e.response_time_ms == r.response_time_ms && e.location@
                == r.location@),
            (c matches Completion::Finished(Outcome::Failure(e, reason)) ==> ev == Bucket::Failure(
                e,
                reason,
            )),
            (c matches Completion::Fault(m) ==> ev == Bucket::Fault(m)),
    {
        self.outstanding = self.outstanding - 1;
        proof {
            self.completions@ = self.completions@.push(c);
            assert(self.completions@.drop_last() =~= old(self).completions@);
        }
        match c {
            Completion::Finished(outcome) => match outcome {
                Outcome::Success(r) => {
                    let ev = Bucket::Success(
                        ProxyResult {
                            ip: r.ip,
                            response_time_ms: r.response_time_ms,
                            location: r.location.clone(),
                        },
                    );
                    self.successes.push(r);
                    proof {
                        assert(self.successes@ =~= successes_of(self.completions@));
                    }
                    ev
                },
                Outcome::Failure(e, reason) => {
                    proof {
                        assert(self.successes@ =~= successes_of(self.completions@));
                    }
                    Bucket::Failure(e, reason)
                },
            },
            Completion::Fault(msg) => {
                proof {
                    assert(self.successes@ =~= successes_of(self.completions@));
                }
                Bucket::Fault(msg)
            },
        }
    }

    /// Notes that the candidate source has closed: the end-of-candidates
    /// signal, not an error.
    pub fn close_source(&mut self)
        requires
            old(self).wf(),
        ensures
            final(self).wf(),
            final(self).source_done,
            final(self).accepted@ == old(self).accepted@,
            final(self).spawned@ == old(self).spawned@,
            final(self).completions@ == old(self).completions@,
            final(self).successes@ == old(self).successes@,
            final(self).outstanding == old(self).outstanding,
    {
        self.source_done = true;
    }

    /// The loop's exit test: candidates exhausted and no unit
    /// outstanding.
    pub fn is_finished(&self) -> (b: bool)
        ensures
            b == self.finished(),
    {
        self.source_done && self.outstanding == 0
    }

    /// Whether any success was collected; an empty run is reported as
    /// "no working proxies found" rather than an empty table.
    pub fn has_results(&self) -> (b: bool)
        requires
            self.wf(),
        ensures
            b == (successes_of(self.completions@).len() > 0),
    {
        self.successes.len() > 0
    }

    /// Ends the run: the result set, sorted ascending by response
    /// time, stable on ties.
    pub fn finish(self) -> (report: Vec<ProxyResult>)
        requires
            self.wf(),
            self.finished(),
        ensures
            report@ == sort_by_time(successes_of(self.completions@)),
            sorted_by_time(report@),
            report@.to_multiset() == successes_of(self.completions@).to_multiset(),
    {
        sort_results(self.successes)
    }
}

/// No loss, no duplication: at completion the endpoints handed to
/// verification units are exactly the accepted candidates, one unit
/// each, and every unit has delivered its completion.
pub proof fn lemma_no_loss_no_duplication(a: Aggregator)
    requires
        a.wf(),
        a.finished(),
    ensures
        a.spawned@ == a.accepted@,
        a.completions@.len() == a.accepted@.len(),
{
}

proof fn lemma_successes_of_add(a: Seq<Completion>, b: Seq<Completion>)
    ensures
        successes_of(a + b) == successes_of(a) + successes_of(b),
    decreases b.len(),
{
    if b.len() == 0 {
        assert(a + b =~= a);
        assert(successes_of(a) + successes_of(b) =~= successes_of(a));
    } else {
        lemma_successes_of_add(a, b.drop_last());
        assert((a + b).drop_last() =~= a + b.drop_last());
        assert((a + b).last() == b.last());
        assert(successes_of(a) + successes_of(b) =~= (successes_of(a) + successes_of(
            b.drop_last(),
        )) + one_success(b.last()));
    }
}

proof fn lemma_successes_of_remove(s: Seq<Completion>, j: int)
    requires
        0 <= j < s.len(),
    ensures
        successes_of(s).to_multiset() == successes_of(s.remove(j)).to_multiset().add(
            one_success(s[j]).to_multiset(),
        ),
{
    broadcast use vstd::multiset::group_multiset_axioms;

    let front = s.subrange(0, j);
    let mid = seq![s[j]];
    let back = s.subrange(j + 1, s.len() as int);
    assert(s =~= front + (mid + back));
    lemma_successes_of_add(front, mid + back);
    lemma_successes_of_add(mid, back);
    lemma_successes_of_add(front, back);
    assert(mid.drop_last() =~= Seq::<Completion>::empty());
    assert(successes_of(Seq::<Completion>::empty()) =~= Seq::<ProxyResult>::empty());
    assert(successes_of(mid) == successes_of(mid.drop_last()) + one_success(mid.last()));
    assert(successes_of(mid) =~= one_success(s[j]));
    lemma_multiset_commutative(successes_of(front), successes_of(mid) + successes_of(back));
    lemma_multiset_commutative(successes_of(mid), successes_of(back));
    lemma_multiset_commutative(successes_of(front), successes_of(back));
    assert(successes_of(s.remove(j)) == successes_of(front) + successes_of(back));
    assert(successes_of(s).to_multiset() =~= successes_of(s.remove(j)).to_multiset().add(
        one_success(s[j]).to_multiset(),
    ));
}

/// The contents of the result set depend only on which completions
/// arrived, never on the order they arrived in: two histories that are
/// permutations of one another collect the same successes.
pub proof fn lemma_successes_permutation(a: Seq<Completion>, b: Seq<Completion>)
    requires
        a.to_multiset() == b.to_multiset(),
    ensures
        successes_of(a).to_multiset() == successes_of(b).to_multiset(),
    decreases a.len(),
{
    broadcast use vstd::seq_lib::group_to_multiset_ensures;
    broadcast use vstd::multiset::group_multiset_axioms;

    if a.len() == 0 {
        assert(a.to_multiset().len() == a.len());
        assert(b.to_multiset().len() == b.len());
        assert(a =~= b);
    } else {
        let x = a.last();
        assert(a[a.len() - 1] == x);
        assert(a.contains(x));
        assert(b.to_multiset().count(x) > 0);
        assert(b.contains(x));
        let j = choose|j: int| 0 <= j < b.len() && b[j] == x;
        let b1 = b.remove(j);
        assert(a.drop_last() =~= a.remove(a.len() - 1));
        assert(a.drop_last().to_multiset() =~= b1.to_multiset());
        lemma_successes_permutation(a.drop_last(), b1);
        lemma_successes_of_remove(b, j);
        lemma_successes_of_remove(a, a.len() - 1);
        assert(a.remove(a.len() - 1) =~= a.drop_last());
        assert(successes_of(a).to_multiset() =~= successes_of(b).to_multiset());
    }
}

/// Re-running an unchanged record list against a stub verifier that
/// gives each endpoint a fixed outcome yields the same result set:
/// both runs' reports are sorted by response time and hold exactly
/// the same entries, however the completions interleaved.
pub proof fn lemma_rerun_same_result_set(
    records: Seq<InputRecord>,
    default_port: u16,
    stub: spec_fn(Endpoint) -> Outcome,
    c1: Seq<Completion>,
    c2: Seq<Completion>,
)
    requires
        c1.to_multiset() == candidates_of(records, default_port).map_values(
            |e: Endpoint| Completion::Finished(stub(e)),
        ).to_multiset(),
        c2.to_multiset() == candidates_of(records, default_port).map_values(
            |e: Endpoint| Completion::Finished(stub(e)),
        ).to_multiset(),
    ensures
        sort_by_time(successes_of(c1)).to_multiset() == sort_by_time(
            successes_of(c2),
        ).to_multiset(),
        sorted_by_time(sort_by_time(successes_of(c1))),
        sorted_by_time(sort_by_time(successes_of(c2))),
{
    lemma_successes_permutation(c1, c2);
    crate::report::lemma_sort_by_time_ensures(successes_of(c1));
    crate::report::lemma_sort_by_time_ensures(successes_of(c2));
}

/// When no two distinct successes tie on response time, the reports of
/// the two runs are identical, entry for entry.
pub proof fn lemma_rerun_identical_report(c1: Seq<Completion>, c2: Seq<Completion>)
    requires
        c1.to_multiset() == c2.to_multiset(),
        forall|r1: ProxyResult, r2: ProxyResult|
            successes_of(c1).contains(r1) && successes_of(c1).contains(r2) && r1 != r2
                ==> r1.response_time_ms != r2.response_time_ms,
    ensures
        sort_by_time(successes_of(c1)) == sort_by_time(successes_of(c2)),
{
    broadcast use vstd::seq_lib::group_to_multiset_ensures;
    broadcast use vstd::multiset::group_multiset_axioms;

    lemma_successes_permutation(c1, c2);
    crate::report::lemma_sort_by_time_ensures(successes_of(c1));
    crate::report::lemma_sort_by_time_ensures(successes_of(c2));
    let x = sort_by_time(successes_of(c1));
    let y = sort_by_time(successes_of(c2));
    assert forall|r: ProxyResult| x.contains(r) implies successes_of(c1).contains(r) by {
        assert(x.to_multiset().count(r) > 0);
        assert(successes_of(c1).to_multiset().count(r) > 0);
    }
    lemma_sorted_distinct_unique(x, y);
}

proof fn lemma_sorted_distinct_unique(x: Seq<ProxyResult>, y: Seq<ProxyResult>)
    requires
        sorted_by_time(x),
        sorted_by_time(y),
        x.to_multiset() == y.to_multiset(),
        forall|r1: ProxyResult, r2: ProxyResult|
            x.contains(r1) && x.contains(r2) && r1 != r2 ==> r1.response_time_ms
                != r2.response_time_ms,
    ensures
        x == y,
    decreases x.len(),
{
    broadcast use vstd::seq_lib::group_to_multiset_ensures;
    broadcast use vstd::multiset::group_multiset_axioms;

    if x.len() == 0 {
        assert(x.to_multiset().len() == x.len());
        assert(y.to_multiset().len() == y.len());
        assert(x =~= y);
    } else {
        assert(x.to_multiset().len() == x.len());
        assert(y.to_multiset().len() == y.len());
        assert(y.len() == x.len());
        assert(x.contains(x[0]));
        assert(y.to_multiset().count(x[0]) > 0);
        assert(y.contains(x[0]));
        assert(y[0].response_time_ms <= x[0].response_time_ms) by {
            let i = choose|i: int| 0 <= i < y.len() && y[i] == x[0];
            assert(i > 0 ==> time_le(y[0], y[i]));
        }
        assert(x.contains(y[0])) by {
            assert(y.contains(y[0]));
            assert(x.to_multiset().count(y[0]) > 0);
        }
        assert(x[0].response_time_ms <= y[0].response_time_ms) by {
            let i = choose|i: int| 0 <= i < x.len() && x[i] == y[0];
            assert(i > 0 ==> time_le(x[0], x[i]));
        }
        assert(x[0] == y[0]);
        let x1 = x.drop_first();
        let y1 = y.drop_first();
        assert(x1 =~= x.remove(0));
        assert(y1 =~= y.remove(0));
        assert(x1.to_multiset() =~= y1.to_multiset());
        assert forall|r1: ProxyResult, r2: ProxyResult|
            x1.contains(r1) && x1.contains(r2) && r1 != r2 implies r1.response_time_ms
            != r2.response_time_ms by {
            let i1 = choose|i: int| 0 <= i < x1.len() && x1[i] == r1;
            let i2 = choose|i: int| 0 <= i < x1.len() && x1[i] == r2;
            assert(x[i1 + 1] == r1);
            assert(x[i2 + 1] == r2);
            assert(x.contains(r1));
            assert(x.contains(r2));
        }
        assert forall|i: int, j: int| 0 <= i < j < x1.len() implies time_le(x1[i], x1[j]) by {
            assert(x1[i] == x[i + 1] && x1[j] == x[j + 1]);
        }
        assert forall|i: int, j: int| 0 <= i < j < y1.len() implies time_le(y1[i], y1[j]) by {
            assert(y1[i] == y[i + 1] && y1[j] == y[j + 1]);
        }
        lemma_sorted_distinct_unique(x1, y1);
        assert forall|i: int| 0 <= i < x.len() implies x[i] == y[i] by {
            if i > 0 {
                assert(x1[i - 1] == y1[i - 1]);
            }
        }
        assert(x =~= y);
    }
}

/// A run that accepted no candidate spawned no verification unit and
/// ends with an empty result set: nothing is reported.
pub proof fn lemma_empty_run_reports_nothing(a: Aggregator)
    requires
        a.wf(),
        a.finished(),
        a.accepted@ == Seq::<Endpoint>::empty(),
    ensures
        a.spawned@.len() == 0,
        successes_of(a.completions@).len() == 0,
        sort_by_time(successes_of(a.completions@)) == Seq::<ProxyResult>::empty(),
{
    assert(a.completions@.len() == 0);
}

/// Every entry of the result set is the record of some successful
/// completion: nothing else is ever appended.
pub proof fn lemma_results_are_successes(cs: Seq<Completion>, r: ProxyResult)
    requires
        successes_of(cs).contains(r),
    ensures
        exists|i: int|
            0 <= i < cs.len() && cs[i] == Completion::Finished(Outcome::Success(r)),
    decreases cs.len(),
{
    if cs.len() > 0 {
        let j = choose|j: int| 0 <= j < successes_of(cs).len() && successes_of(cs)[j] == r;
        if j < successes_of(cs.drop_last()).len() {
            assert(successes_of(cs.drop_last()).contains(r));
            lemma_results_are_successes(cs.drop_last(), r);
            let i = choose|i: int|
                0 <= i < cs.drop_last().len() && cs.drop_last()[i] == Completion::Finished(
                    Outcome::Success(r),
                );
            assert(cs[i] == Completion::Finished(Outcome::Success(r)));
        } else {
            assert(cs[cs.len() - 1] == Completion::Finished(Outcome::Success(r)));
        }
    }
}

} // verus!
