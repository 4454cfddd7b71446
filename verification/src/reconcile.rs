//! The per-record diff-and-patch plan and its run verdict.
//!
//! The reconciler walks the selected records in their given order. A record
//! that already holds the resolved address is noted without any write; for
//! every other record it asks its driver for exactly one update request and
//! takes the observed result back. No single record's failure stops the
//! walk; the verdict over the whole run is computed at the end.

use vstd::prelude::*;
use crate::ipv4::Ipv4;
use crate::record::DnsRecord;

verus! {

/// Per-record result of reconciliation.
pub enum Outcome {
    /// The record already held the resolved address; no write was issued.
    UpToDate,
    /// The update request completed with a success status.
    Updated,
    /// The update request completed with a failure status; the provider's
    /// messages when an error envelope could be read.
    FailedApi { status: u16, errors: Vec<String> },
    /// The update request could not be completed at all.
    FailedTransport,
}

/// What the driver observed for one update request.
pub enum PatchResult {
    /// The request completed with this HTTP status; the provider's
    /// messages when an error envelope could be read from the response.
    Completed { status: u16, errors: Vec<String> },
    /// The request could not be completed: network failure or timeout.
    Transport,
}

/// The run-level verdict over all selected records.
#[derive(Clone, Copy, PartialEq, Eq, Structural, Debug)]
pub enum RunVerdict {
    AllOk,
    PartialFailure,
}

/// The success class of an HTTP status.
pub open spec fn is_success_status(status: u16) -> bool {
    200 <= status < 300
}

/// An outcome that counts against the run.
pub open spec fn outcome_failed(o: Outcome) -> bool {
    o is FailedApi || o is FailedTransport
}

/// The outcome one observed update result earns.
pub open spec fn outcome_of_patch(res: PatchResult) -> Outcome {
    match res {
        PatchResult::Completed { status, errors } => if is_success_status(status) {
            Outcome::Updated
        } else {
            Outcome::FailedApi { status, errors }
        },
        PatchResult::Transport => Outcome::FailedTransport,
    }
}

/// The verdict the finished run earns: a partial failure exactly when some
/// record's outcome counts against it.
pub open spec fn verdict_of(outcomes: Seq<Outcome>) -> RunVerdict {
    if exists|i: int| 0 <= i < outcomes.len() && outcome_failed(#[trigger] outcomes[i]) {
        RunVerdict::PartialFailure
    } else {
        RunVerdict::AllOk
    }
}

/// Indices below `k` of records whose value differs from the resolved
/// address: the records that need (or needed) an update.
pub open spec fn update_idxs_upto(records: Seq<DnsRecord>, ip: Ipv4, k: int) -> Seq<int> {
    Seq::new(k as nat, |i: int| i).filter(|i: int| records[i].value != ip)
}

/// Indices of all records whose value differs from the resolved address.
pub open spec fn update_idxs(records: Seq<DnsRecord>, ip: Ipv4) -> Seq<int> {
    update_idxs_upto(records, ip, records.len() as int)
}

/// The reconciler's advice to its driver.
pub enum ReconcileStep {
    /// The record at this index already holds the address; noted, no write.
    UpToDate { index: usize },
    /// Issue one update request for the record at this index and report
    /// the observed result.
    Patch { index: usize },
    /// Every record is processed; the run's verdict.
    Done(RunVerdict),
}

/// Walks the selected records in order, issuing one update per stale
/// record and aggregating the outcomes.
pub struct Reconciler {
    records: Vec<DnsRecord>,
    ip: Ipv4,
    outcomes: Vec<Outcome>,
    pending: bool,
    patched: Ghost<Seq<int>>,
}

impl Reconciler {
    /// The selected records, in the order they are visited.
    pub closed spec fn records_view(self) -> Seq<DnsRecord> {
        self.records@
    }

    /// The address every record is reconciled towards.
    pub closed spec fn ip_spec(self) -> Ipv4 {
        self.ip
    }

    /// The per-record outcomes so far, one per visited record, in order.
    pub closed spec fn outcomes_view(self) -> Seq<Outcome> {
        self.outcomes@
    }

    /// Whether an update request has been handed out and not reported back.
    pub closed spec fn pending_patch(self) -> bool {
        self.pending
    }

    /// Indices of every record an update request was issued for, in order.
    pub closed spec fn patched_view(self) -> Seq<int> {
        self.patched@
    }

    /// How many records have been reached so far.
    pub open spec fn reached(self) -> int {
        self.outcomes_view().len() + if self.pending_patch() {
            1int
        } else {
            0int
        }
    }

    /// Outcomes track the records one for one and in order: a record is
    /// up to date exactly when it held the address, and the updates issued
    /// are exactly one per stale record reached.
    pub closed spec fn wf(self) -> bool {
        &&& self.reached() <= self.records@.len()
        &&& (self.pending ==> self.records@[self.outcomes@.len() as int].value != self.ip)
        &&& (forall|i: int|
            0 <= i < self.outcomes@.len() ==> ((#[trigger] self.outcomes@[i]) is UpToDate
                <==> self.records@[i].value == self.ip))
        &&& self.patched@ == update_idxs_upto(self.records@, self.ip, self.reached())
    }

    /// A reconciler over the working subset and the resolved address,
    /// before any record is visited.
    pub fn new(records: Vec<DnsRecord>, ip: Ipv4) -> (r: Reconciler)
        ensures
            r.wf(),
            r.records_view() == records@,
            r.ip_spec() == ip,
            r.outcomes_view() == Seq::<Outcome>::empty(),
            !r.pending_patch(),
            r.patched_view() == Seq::<int>::empty(),
    {
        proof {
            assert(Seq::new(0nat, |i: int| i) =~= Seq::<int>::empty());
            assert(update_idxs_upto(records@, ip, 0) =~= Seq::<int>::empty());
        }
        Reconciler { records, ip, outcomes: Vec::new(), pending: false, patched: Ghost(Seq::empty()) }
    }

    /// The record at a visited or current index, for building the update
    /// request and for reporting.
    pub fn record_at(&self, i: usize) -> (r: &DnsRecord)
        requires
            i < self.records_view().len(),
        ensures
            *r == self.records_view()[i as int],
    {
        &self.records[i]
    }

    /// The outcomes so far, for reporting.
    pub fn outcomes(&self) -> (r: &Vec<Outcome>)
        ensures
            r@ == self.outcomes_view(),
    {
        &self.outcomes
    }

    /// Advance to the next record: note it up to date when it already
    /// holds the address, ask for one update request when it does not, and
    /// end with the verdict once every record is processed.
    pub fn next_step(&mut self) -> (r: ReconcileStep)
        requires
            old(self).wf(),
            !old(self).pending_patch(),
        ensures
            final(self).wf(),
            final(self).records_view() == old(self).records_view(),
            final(self).ip_spec() == old(self).ip_spec(),
            ({
                let k = old(self).outcomes_view().len() as int;
                if k == old(self).records_view().len() {
                    &&& r == ReconcileStep::Done(verdict_of(old(self).outcomes_view()))
                    &&& final(self).outcomes_view() == old(self).outcomes_view()
                    &&& !final(self).pending_patch()
                    &&& final(self).patched_view() == old(self).patched_view()
                } else if old(self).records_view()[k].value == old(self).ip_spec() {
                    &&& r == (ReconcileStep::UpToDate { index: k as usize })
                    &&& final(self).outcomes_view() == old(self).outcomes_view().push(
                        Outcome::UpToDate,
                    )
                    &&& !final(self).pending_patch()
                    &&& final(self).patched_view() == old(self).patched_view()
                } else {
                    &&& r == (ReconcileStep::Patch { index: k as usize })
                    &&& final(self).outcomes_view() == old(self).outcomes_view()
                    &&& final(self).pending_patch()
                    &&& final(self).patched_view() == old(self).patched_view().push(k)
                }
            }),
    {
        let k = self.outcomes.len();
        if k == self.records.len() {
            let mut failed = false;
            let mut i: usize = 0;
            while i < self.outcomes.len()
                invariant
                    i <= self.outcomes@.len(),
                    failed == exists|j: int|
                        0 <= j < i && outcome_failed(#[trigger] self.outcomes@[j]),
                decreases self.outcomes@.len() - i,
            {
                let f = match &self.outcomes[i] {
                    Outcome::FailedApi { .. } => true,
                    Outcome::FailedTransport => true,
                    _ => false,
                };
                if f {
                    failed = true;
                }
                i = i + 1;
            }
            let verdict = if failed {
                RunVerdict::PartialFailure
            } else {
                RunVerdict::AllOk
            };
            proof {
                if failed {
                    assert(verdict_of(self.outcomes@) == RunVerdict::PartialFailure);
                } else {
                    assert(verdict_of(self.outcomes@) == RunVerdict::AllOk);
                }
            }
            return ReconcileStep::Done(verdict);
        }
        proof {
            assert(Seq::new((k + 1) as nat, |i: int| i) =~= Seq::new(k as nat, |i: int| i).push(
                k as int,
            ));
            Seq::new(k as nat, |i: int| i).lemma_filter_push(
                k as int,
                |i: int| self.records@[i].value != self.ip,
            );
        }
        let up_to_date = {
            let rec = &self.records[k];
            rec.value == self.ip
        };
        if up_to_date {
            self.outcomes.push(Outcome::UpToDate);
            ReconcileStep::UpToDate { index: k }
        } else {
            self.pending = true;
            proof {
                self.patched@ = self.patched@.push(k as int);
            }
            ReconcileStep::Patch { index: k }
        }
    }

    /// Take back the observed result of the one outstanding update
    /// request: a success status means the record was updated; anything
    /// else is recorded against the record, and the walk goes on.
    pub fn report_patch(&mut self, res: PatchResult) -> (r: &Outcome)
        requires
            old(self).wf(),
            old(self).pending_patch(),
        ensures
            final(self).wf(),
            final(self).records_view() == old(self).records_view(),
            final(self).ip_spec() == old(self).ip_spec(),
            final(self).outcomes_view() == old(self).outcomes_view().push(outcome_of_patch(res)),
            !final(self).pending_patch(),
            final(self).patched_view() == old(self).patched_view(),
            *r == outcome_of_patch(res),
    {
        let outcome = match res {
            PatchResult::Completed { status, errors } => {
                if 200 <= status && status < 300 {
                    Outcome::Updated
                } else {
                    Outcome::FailedApi { status, errors }
                }
            },
            PatchResult::Transport => Outcome::FailedTransport,
        };
        self.outcomes.push(outcome);
        self.pending = false;
        let n = self.outcomes.len();
        &self.outcomes[n - 1]
    }
}

/// A record that already holds the resolved address is never the subject
/// of an update request.
pub proof fn lemma_up_to_date_never_patched(r: Reconciler, i: int)
    requires
        r.wf(),
        0 <= i < r.records_view().len(),
        r.records_view()[i].value == r.ip_spec(),
    ensures
        !r.patched_view().contains(i),
{
    if r.patched_view().contains(i) {
        let j = choose|j: int| 0 <= j < r.patched_view().len() && r.patched_view()[j] == i;
        broadcast use vstd::seq_lib::group_filter_ensures;
        let src = Seq::new(r.reached() as nat, |t: int| t);
        let pred = |t: int| r.records_view()[t].value != r.ip_spec();
        assert(pred(src.filter(pred)[j]));
    }
}

/// Every index below `k` is reflected in `update_idxs_upto`: stale records
/// are in, in increasing order, and records already holding the address
/// are out.
proof fn lemma_update_idxs_shape(records: Seq<DnsRecord>, ip: Ipv4, k: int)
    requires
        0 <= k,
    ensures
        forall|a: int|
            0 <= a < update_idxs_upto(records, ip, k).len() ==> 0 <= #[trigger] update_idxs_upto(
                records,
                ip,
                k,
            )[a] < k,
        forall|a: int, b: int|
            0 <= a < b < update_idxs_upto(records, ip, k).len() ==> update_idxs_upto(
                records,
                ip,
                k,
            )[a] < update_idxs_upto(records, ip, k)[b],
    decreases k,
{
    let pred = |i: int| records[i].value != ip;
    if k > 0 {
        lemma_update_idxs_shape(records, ip, k - 1);
        assert(Seq::new(k as nat, |i: int| i) =~= Seq::new((k - 1) as nat, |i: int| i).push(k - 1));
        Seq::new((k - 1) as nat, |i: int| i).lemma_filter_push(k - 1, pred);
        let prev = update_idxs_upto(records, ip, k - 1);
        let cur = update_idxs_upto(records, ip, k);
        assert(cur == if pred(k - 1) {
            prev.push(k - 1)
        } else {
            prev
        });
        assert forall|a: int| 0 <= a < cur.len() implies 0 <= #[trigger] cur[a] < k by {
            if a < prev.len() {
                assert(cur[a] == prev[a]);
            } else {
                assert(cur[a] == k - 1);
            }
        }
        assert forall|a: int, b: int| 0 <= a < b < cur.len() implies cur[a] < cur[b] by {
            assert(cur[a] == prev[a]);
            if b < prev.len() {
                assert(cur[b] == prev[b]);
            } else {
                assert(cur[b] == k - 1);
                assert(prev[a] < k - 1);
            }
        }
    } else {
        assert(Seq::new(0nat, |i: int| i) =~= Seq::<int>::empty());
    }
}

/// When every record has been processed, the updates issued were exactly
/// one per stale record — the records whose value differed from the
/// resolved address — in their input order and each for a distinct index,
/// whatever the individual update results were.
pub proof fn lemma_updates_exactly_stale(r: Reconciler)
    requires
        r.wf(),
        !r.pending_patch(),
        r.outcomes_view().len() == r.records_view().len(),
    ensures
        r.patched_view() == update_idxs(r.records_view(), r.ip_spec()),
        forall|a: int, b: int|
            0 <= a < b < r.patched_view().len() ==> r.patched_view()[a] < r.patched_view()[b],
{
    lemma_update_idxs_shape(r.records_view(), r.ip_spec(), r.reached());
}

/// The finished run's verdict is a partial failure exactly when some
/// record's reconciliation ended neither up to date nor updated.
pub proof fn lemma_verdict_iff_some_failure(outcomes: Seq<Outcome>)
    ensures
        (verdict_of(outcomes) == RunVerdict::PartialFailure) <==> exists|i: int|
            0 <= i < outcomes.len() && !((#[trigger] outcomes[i]) is UpToDate || outcomes[i]
                is Updated),
{
    assert forall|i: int| 0 <= i < outcomes.len() implies (outcome_failed(#[trigger] outcomes[i])
        <==> !(outcomes[i] is UpToDate || outcomes[i] is Updated)) by {
        match outcomes[i] {
            Outcome::UpToDate => {},
            Outcome::Updated => {},
            Outcome::FailedApi { .. } => {},
            Outcome::FailedTransport => {},
        }
    }
}

} // verus!
