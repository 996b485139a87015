//! The decisions of the Kafka consumer workers: how the message budget is
//! split, what each worker does with each event, and how far the open-file
//! limit is raised. The workers' I/O lives outside the library.

use vstd::prelude::*;

use crate::analyzer::{record_all, SchemaCounts, CountsMap};
use crate::attributes::{AttrSeq, Attributes};
use crate::otlp_parser::{parse_resource_attrs, spec_parse_resource_attrs};
use crate::pairs::seq_sum;
use crate::text::{decode_lossy, lossy_utf8};

verus! {

/// The budget of worker `i` of `workers` when `total` messages are shared:
/// an even share, and worker 0 absorbs the remainder `total % workers`.
pub open spec fn budget_share(total: nat, workers: nat, i: nat) -> nat {
    total / workers + if i == 0 {
        total % workers
    } else {
        0nat
    }
}

/// The budgets of all workers.
pub open spec fn budget_shares(total: nat, workers: nat) -> Seq<nat> {
    Seq::new(workers, |i: int| budget_share(total, workers, i as nat))
}

/// Splits `max_messages` over `workers` as evenly as possible; worker 0
/// absorbs any remainder. No limit for anyone when there is no overall limit.
pub fn distribute_budget(max_messages: Option<usize>, workers: usize) -> (r: Vec<Option<usize>>)
    requires
        max_messages is Some ==> workers > 0,
    ensures
        r@.len() == workers,
        forall|i: int|
            #![trigger r@[i]]
            0 <= i < workers ==> match max_messages {
                None => r@[i] is None,
                Some(t) => (r@[i] matches Some(b) && b as nat == budget_share(
                    t as nat,
                    workers as nat,
                    i as nat,
                )),
            },
{
    let mut out: Vec<Option<usize>> = Vec::new();
    match max_messages {
        None => {
            let mut i: usize = 0;
            while i < workers
                invariant
                    i <= workers,
                    out@.len() == i,
                    forall|j: int| 0 <= j < i ==> out@[j] is None,
                decreases workers - i,
            {
                out.push(None);
                i = i + 1;
            }
        },
        Some(total) => {
            let per = total / workers;
            let rem = total % workers;
            proof {
                assert(per * workers + rem == total) by (nonlinear_arith)
                    requires
                        workers > 0,
                        per == total / workers,
                        rem == total % workers,
                ;
                assert(per <= per * workers) by (nonlinear_arith)
                    requires
                        workers > 0,
                        per >= 0,
                ;
            }
            let mut i: usize = 0;
            while i < workers
                invariant
                    i <= workers,
                    workers > 0,
                    per == total / workers,
                    rem == total % workers,
                    per + rem <= total,
                    out@.len() == i,
                    forall|j: int|
                        #![trigger out@[j]]
                        0 <= j < i ==> (out@[j] matches Some(b) && b as nat == budget_share(
                            total as nat,
                            workers as nat,
                            j as nat,
                        )),
                decreases workers - i,
            {
                let share = if i == 0 {
                    per + rem
                } else {
                    per
                };
                out.push(Some(share));
                i = i + 1;
            }
        },
    }
    out
}

/// The budgets add up to the whole: no message of the budget is lost or
/// counted twice.
pub proof fn lemma_budget_total(total: nat, workers: nat)
    requires
        workers > 0,
    ensures
        seq_sum(budget_shares(total, workers)) == total,
{
    let q = total / workers;
    let r = total % workers;
    assert(q * workers + r == total) by (nonlinear_arith)
        requires
            workers > 0,
            q == total / workers,
            r == total % workers,
    ;
    lemma_budget_prefix(total, workers, workers);
    assert(workers * q == q * workers) by (nonlinear_arith);
    assert(budget_shares(total, workers).take(workers as int) =~= budget_shares(total, workers));
}

/// The first `k` budgets add up to `k` even shares, plus the remainder once
/// worker 0 is among them.
proof fn lemma_budget_prefix(total: nat, workers: nat, k: nat)
    requires
        workers > 0,
        k <= workers,
    ensures
        seq_sum(budget_shares(total, workers).take(k as int)) == k * (total / workers) + if k
            > 0 {
            total % workers
        } else {
            0
        },
    decreases k,
{
    let s = budget_shares(total, workers);
    let q = total / workers;
    if k > 0 {
        lemma_budget_prefix(total, workers, (k - 1) as nat);
        assert(s.take(k as int).drop_last() =~= s.take(k - 1));
        assert(k * q == (k - 1) * q + q) by (nonlinear_arith);
    } else {
        assert(s.take(0) =~= Seq::<nat>::empty());
    }
}

/// Worker 0 takes the even share plus the whole remainder; every other
/// worker takes the even share alone.
pub proof fn lemma_budget_remainder_to_first(total: nat, workers: nat, i: nat)
    requires
        0 < i < workers,
    ensures
        budget_share(total, workers, 0) == total / workers + total % workers,
        budget_share(total, workers, i) == total / workers,
        total % workers < workers,
{
}

/// The budget counts messages, not resources: a counted message raises the
/// processed count by exactly one, whatever number of resources it holds,
/// and stops the workers exactly when that count reaches the budget; no
/// other event changes the count.
pub proof fn lemma_step_budget_counts_messages(m: WorkerModel, e: EventModel)
    ensures
        spec_step(m, e).1.processed ==> spec_step(m, e).0.processed == m.processed + 1,
        !spec_step(m, e).1.processed ==> spec_step(m, e).0.processed == m.processed,
        spec_step(m, e).1.processed ==> match m.budget {
            Some(b) => (spec_step(m, e).1.next == WorkerNext::StopAll) == (spec_step(m, e).0.processed
                >= b),
            None => spec_step(m, e).1.next == WorkerNext::Continue,
        },
{
}


/// Whether a worker with this budget consumes at all: a budget of zero
/// means no work.
pub fn worker_has_budget(budget: Option<usize>) -> (r: bool)
    ensures
        r == !(budget == Some(0usize)),
{
    match budget {
        Some(b) => b != 0,
        None => true,
    }
}

/// What a worker observes between two decisions.
pub enum WorkerEvent {
    /// The shared stop flag is set.
    StopRequested,
    /// No message came within the poll interval; `idle_expired` tells
    /// whether the idle timeout has passed since the last message.
    PollTimedOut { idle_expired: bool },
    /// The message stream ended.
    StreamEnded,
    /// The stream reported an error.
    StreamError,
    /// A message arrived, with its payload where it has one.
    Message { payload: Option<Vec<u8>> },
}

/// What the worker does next.
#[derive(Debug, Clone, Copy, PartialEq, Eq)]
pub enum WorkerNext {
    /// Poll again.
    Continue,
    /// Stop this worker.
    Stop,
    /// Stop this worker and tell the others to stop.
    StopAll,
    /// Stop this worker with the stream's error.
    Fail,
    /// Stop: recording the message would exceed the counters' range.
    CountLimit,
}

/// The decision on one event.
#[derive(Debug, Clone, Copy, PartialEq, Eq)]
pub struct StepOutcome {
    /// A message was counted (for the processed-messages metric).
    pub processed: bool,
    /// A message was passed over (for the skipped-messages metric).
    pub skipped: bool,
    /// The processed count reached a multiple of the progress interval.
    pub report_progress: bool,
    pub next: WorkerNext,
}

/// Whether `count` is a multiple of `interval` (as `usize::is_multiple_of`:
/// only zero is a multiple of zero).
pub open spec fn is_multiple(count: nat, interval: nat) -> bool {
    if interval == 0 {
        count == 0
    } else {
        count % interval == 0
    }
}

/// The state of one consumer worker: its counts, how many messages it has
/// processed, its budget and how often it reports progress.
pub struct WorkerState {
    counts: SchemaCounts,
    processed: usize,
    budget: Option<usize>,
    progress_interval: usize,
}

/// The mathematical form of a worker's state.
pub struct WorkerModel {
    pub counts: CountsMap,
    pub total: nat,
    pub processed: nat,
    pub budget: Option<usize>,
    pub progress_interval: nat,
}

/// The mathematical form of an event.
pub enum EventModel {
    StopRequested,
    PollTimedOut { idle_expired: bool },
    StreamEnded,
    StreamError,
    Message { payload: Option<Seq<u8>> },
}

impl View for WorkerEvent {
    type V = EventModel;

    open spec fn view(&self) -> EventModel {
        match self {
            WorkerEvent::StopRequested => EventModel::StopRequested,
            WorkerEvent::PollTimedOut { idle_expired } => EventModel::PollTimedOut {
                idle_expired: *idle_expired,
            },
            WorkerEvent::StreamEnded => EventModel::StreamEnded,
            WorkerEvent::StreamError => EventModel::StreamError,
            WorkerEvent::Message { payload } => EventModel::Message {
                payload: match payload {
                    Some(p) => Some(p@),
                    None => None,
                },
            },
        }
    }
}

impl View for WorkerState {
    type V = WorkerModel;

    closed spec fn view(&self) -> WorkerModel {
        WorkerModel {
            counts: self.counts@,
            total: self.counts.spec_total(),
            processed: self.processed as nat,
            budget: self.budget,
            progress_interval: self.progress_interval as nat,
        }
    }
}

/// An outcome that only leaves the loop or keeps it going.
pub open spec fn plain_outcome(next: WorkerNext) -> StepOutcome {
    StepOutcome { processed: false, skipped: false, report_progress: false, next }
}

/// The resources that a payload holds: the OTLP attribute sets of its text.
pub open spec fn payload_resources(payload: Seq<u8>) -> Seq<AttrSeq> {
    spec_parse_resource_attrs(lossy_utf8(payload))
}

/// The worker's decision on one event, and its next state.
pub open spec fn spec_step(m: WorkerModel, e: EventModel) -> (WorkerModel, StepOutcome) {
    match e {
        EventModel::StopRequested => (m, plain_outcome(WorkerNext::Stop)),
        EventModel::PollTimedOut { idle_expired } => (
            m,
            plain_outcome(
                if idle_expired {
                    WorkerNext::StopAll
                } else {
                    WorkerNext::Continue
                },
            ),
        ),
        EventModel::StreamEnded => (m, plain_outcome(WorkerNext::Stop)),
        EventModel::StreamError => (m, plain_outcome(WorkerNext::Fail)),
        EventModel::Message { payload: None } => (
            m,
            StepOutcome {
                processed: false,
                skipped: true,
                report_progress: false,
                next: WorkerNext::Continue,
            },
        ),
        EventModel::Message { payload: Some(p) } => {
            let rs = payload_resources(p);
            if rs.len() == 0 {
                (
                    m,
                    StepOutcome {
                        processed: false,
                        skipped: true,
                        report_progress: false,
                        next: WorkerNext::Continue,
                    },
                )
            } else if m.total + rs.len() > usize::MAX {
                (m, plain_outcome(WorkerNext::CountLimit))
            } else {
                let processed = m.processed + 1;
                let next = match m.budget {
                    Some(b) => if processed >= b {
                        WorkerNext::StopAll
                    } else {
                        WorkerNext::Continue
                    },
                    None => WorkerNext::Continue,
                };
                (
                    WorkerModel {
                        counts: record_all(m.counts, rs),
                        total: m.total + rs.len(),
                        processed,
                        ..m
                    },
                    StepOutcome {
                        processed: true,
                        skipped: false,
                        report_progress: is_multiple(processed, m.progress_interval),
                        next,
                    },
                )
            }
        },
    }
}

impl WorkerState {
    #[verifier::type_invariant]
    spec fn inv(self) -> bool {
        self.processed <= self.counts.spec_total()
    }

    /// A worker that has processed nothing yet.
    pub fn new(budget: Option<usize>, progress_interval: usize) -> (r: Self)
        ensures
            r@.counts == CountsMap::empty(),
            r@.total == 0,
            r@.processed == 0,
            r@.budget == budget,
            r@.progress_interval == progress_interval,
    {
        WorkerState { counts: SchemaCounts::new(), processed: 0, budget, progress_interval }
    }

    /// The number of messages processed so far.
    pub fn processed(&self) -> (n: usize)
        ensures
            n == self@.processed,
    {
        self.processed
    }

    /// The counts gathered so far.
    pub fn into_counts(self) -> (r: SchemaCounts)
        ensures
            r@ == self@.counts,
            r.spec_total() == self@.total,
    {
        self.counts
    }

    /// Decides what to do on one event and updates the state: a message
    /// whose payload holds resources is counted; an empty payload, or one
    /// without resources, is skipped; reaching the budget stops all workers.
    pub fn step(&mut self, event: WorkerEvent) -> (r: StepOutcome)
        ensures
            (final(self)@, r) == spec_step(old(self)@, event@),
            r.processed ==> final(self)@.processed == old(self)@.processed + 1,
            !r.processed ==> final(self)@.processed == old(self)@.processed,
            r.processed ==> match old(self)@.budget {
                Some(b) => (r.next == WorkerNext::StopAll) == (final(self)@.processed >= b),
                None => r.next == WorkerNext::Continue,
            },
    {
        proof {
            use_type_invariant(&*self);
            lemma_step_budget_counts_messages(old(self)@, event@);
        }
        match event {
            WorkerEvent::StopRequested => StepOutcome {
                processed: false,
                skipped: false,
                report_progress: false,
                next: WorkerNext::Stop,
            },
            WorkerEvent::PollTimedOut { idle_expired } => StepOutcome {
                processed: false,
                skipped: false,
                report_progress: false,
                next: if idle_expired {
                    WorkerNext::StopAll
                } else {
                    WorkerNext::Continue
                },
            },
            WorkerEvent::StreamEnded => StepOutcome {
                processed: false,
                skipped: false,
                report_progress: false,
                next: WorkerNext::Stop,
            },
            WorkerEvent::StreamError => StepOutcome {
                processed: false,
                skipped: false,
                report_progress: false,
                next: WorkerNext::Fail,
            },
            WorkerEvent::Message { payload: None } => StepOutcome {
                processed: false,
                skipped: true,
                report_progress: false,
                next: WorkerNext::Continue,
            },
            WorkerEvent::Message { payload: Some(bytes) } => {
                let line = decode_lossy(bytes.as_slice());
                let resources = parse_resource_attrs(line.as_str());
                let n = resources.len();
                if n == 0 {
                    return StepOutcome {
                        processed: false,
                        skipped: true,
                        report_progress: false,
                        next: WorkerNext::Continue,
                    };
                }
                if self.counts.total() > usize::MAX - n {
                    return StepOutcome {
                        processed: false,
                        skipped: false,
                        report_progress: false,
                        next: WorkerNext::CountLimit,
                    };
                }
                let mut st = WorkerState::new(None, 0);
                std::mem::swap(&mut st, self);
                let WorkerState { counts: mut counts, processed, budget, progress_interval } = st;
                counts.add(resources);
                let processed = processed + 1;
                let report_progress = if progress_interval == 0 {
                    false
                } else {
                    processed % progress_interval == 0
                };
                let next = match budget {
                    Some(b) => if processed >= b {
                        WorkerNext::StopAll
                    } else {
                        WorkerNext::Continue
                    },
                    None => WorkerNext::Continue,
                };
                *self = WorkerState { counts, processed, budget, progress_interval };
                StepOutcome { processed: true, skipped: false, report_progress, next }
            },
        }
    }
}

/// The number of open files that `workers` Kafka clients need: about 32 each,
/// and never less than 1024.
pub open spec fn fd_needed(workers: nat) -> nat {
    if workers * 32 > 1024 {
        workers * 32
    } else {
        1024
    }
}

/// The new soft limit on open files, where it must be raised: the need,
/// capped by the hard limit; nothing where the soft limit already suffices.
pub fn fd_limit_plan(workers: usize, soft: u64, hard: u64) -> (r: Option<u64>)
    requires
        workers * 32 <= usize::MAX,
    ensures
        soft >= fd_needed(workers as nat) ==> r is None,
        soft < fd_needed(workers as nat) ==> r == Some(
            if fd_needed(workers as nat) < hard {
                fd_needed(workers as nat) as u64
            } else {
                hard
            },
        ),
{
    let want = (workers * 32) as u64;
    let needed: u64 = if want > 1024 {
        want
    } else {
        1024
    };
    if soft >= needed {
        return None;
    }
    Some(
        if needed < hard {
            needed
        } else {
            hard
        },
    )
}

} // verus!
