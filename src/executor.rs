//! Download Executor: the decisions one worker takes while it fetches and
//! stores its statically assigned keys.  The worker never performs I/O
//! itself: it names the next action, and the caller performs it and reports
//! what happened.
use vstd::prelude::*;
use crate::retry::{lemma_pow2_fits, lemma_total_backoff, pow2, total_backoff, RetryDecision, RetryPolicy, MAX_RETRIES_LIMIT};

verus! {

/// The result of processing one key.
#[derive(Clone, Debug)]
pub enum DownloadOutcome {
    Succeeded { bytes_len: u64 },
    Failed { last_error: String },
}

/// What the worker asks its caller to do next.
#[derive(Clone, Copy, Debug, PartialEq, Eq, Structural)]
pub enum Action {
    /// Fetch the bytes of the key at this position of the worker's keys.
    Fetch { index: usize },
    /// Sleep this many seconds before fetching again.
    Sleep { secs: u64 },
    /// Write the fetched bytes of the key at this position to disk.
    Store { index: usize },
    /// Every assigned key has been processed.
    Finished,
}

/// What happened when the caller performed the last action.
#[derive(Clone, Debug)]
pub enum Event {
    Fetched { bytes_len: u64 },
    FetchFailed { error: String },
    Slept,
    Stored,
    StoreFailed { error: String },
}

/// Where the worker stands on its current key.
#[derive(Clone, Copy, Debug, PartialEq, Eq, Structural)]
pub enum Phase {
    Fetching,
    Waiting,
    Storing,
    Done,
}

/// The abstract state of a worker.
pub ghost struct WorkerView {
    pub keys: Seq<String>,
    pub max_retries: nat,
    /// How many keys have been fully processed; the current key's position.
    pub pos: nat,
    /// Consecutive failed fetches of the current key.
    pub failures: nat,
    pub phase: Phase,
    /// Size of the bytes fetched for the current key, while storing them.
    pub fetched_len: nat,
}

impl WorkerView {
    pub open spec fn well_formed(self) -> bool {
        &&& self.max_retries <= MAX_RETRIES_LIMIT
        &&& self.keys.len() <= usize::MAX
        &&& self.pos <= self.keys.len()
        &&& (self.phase == Phase::Done <==> self.pos == self.keys.len())
        &&& self.failures <= self.max_retries
        &&& (self.phase == Phase::Waiting ==> self.failures >= 1)
        &&& self.fetched_len <= u64::MAX
    }

    /// The action this state asks for.
    pub open spec fn pending(self) -> Action {
        match self.phase {
            Phase::Fetching => Action::Fetch { index: self.pos as usize },
            Phase::Waiting => Action::Sleep { secs: pow2(self.failures) as u64 },
            Phase::Storing => Action::Store { index: self.pos as usize },
            Phase::Done => Action::Finished,
        }
    }

    /// The state once the current key's outcome has been reported.
    pub open spec fn advanced(self) -> WorkerView {
        WorkerView {
            pos: self.pos + 1,
            failures: 0,
            phase: if self.pos + 1 < self.keys.len() {
                Phase::Fetching
            } else {
                Phase::Done
            },
            fetched_len: 0,
            ..self
        }
    }

    /// The next state, and the outcome reported for the current key if it
    /// is settled, when `e` happens.  An event that does not answer the
    /// pending action changes nothing.
    pub open spec fn step(self, e: Event) -> (WorkerView, Option<DownloadOutcome>) {
        match (self.phase, e) {
            (Phase::Fetching, Event::Fetched { bytes_len }) => (
                WorkerView { phase: Phase::Storing, fetched_len: bytes_len as nat, ..self },
                None,
            ),
            (Phase::Fetching, Event::FetchFailed { error }) => {
                let f = self.failures + 1;
                if f <= self.max_retries {
                    (WorkerView { failures: f, phase: Phase::Waiting, ..self }, None)
                } else {
                    (self.advanced(), Some(DownloadOutcome::Failed { last_error: error }))
                }
            },
            (Phase::Waiting, Event::Slept) => (WorkerView { phase: Phase::Fetching, ..self }, None),
            (Phase::Storing, Event::Stored) => (
                self.advanced(),
                Some(DownloadOutcome::Succeeded { bytes_len: self.fetched_len as u64 }),
            ),
            (Phase::Storing, Event::StoreFailed { error }) => (
                self.advanced(),
                Some(DownloadOutcome::Failed { last_error: error }),
            ),
            _ => (self, None),
        }
    }
}

/// One worker: processes its keys in order, one at a time.  Each key is
/// fetched under the retry policy; fetched bytes are stored; the key's
/// outcome is reported once, and the worker moves on to the next key
/// whatever that outcome was.
pub struct Worker {
    keys: Vec<String>,
    max_retries: u32,
    pos: usize,
    failures: u32,
    phase: Phase,
    fetched_len: u64,
}

impl View for Worker {
    type V = WorkerView;

    closed spec fn view(&self) -> WorkerView {
        WorkerView {
            keys: self.keys@,
            max_retries: self.max_retries as nat,
            pos: self.pos as nat,
            failures: self.failures as nat,
            phase: self.phase,
            fetched_len: self.fetched_len as nat,
        }
    }
}

impl Worker {
    pub fn new(keys: Vec<String>, policy: RetryPolicy) -> (r: Worker)
        requires
            policy.well_formed(),
        ensures
            r@.well_formed(),
            r@.keys == keys@,
            r@.max_retries == policy.max_retries,
            r@.pos == 0,
            r@.failures == 0,
            r@.fetched_len == 0,
            r@.phase == (if keys@.len() == 0 {
                Phase::Done
            } else {
                Phase::Fetching
            }),
    {
        let phase = if keys.len() == 0 {
            Phase::Done
        } else {
            Phase::Fetching
        };
        Worker { keys, max_retries: policy.max_retries, pos: 0, failures: 0, phase, fetched_len: 0 }
    }

    /// The action the worker waits for.
    pub fn next_action(&self) -> (r: Action)
        requires
            self@.well_formed(),
        ensures
            r == self@.pending(),
    {
        match self.phase {
            Phase::Fetching => Action::Fetch { index: self.pos },
            Phase::Waiting => Action::Sleep {
                secs: crate::retry::backoff_secs(self.failures),
            },
            Phase::Storing => Action::Store { index: self.pos },
            Phase::Done => Action::Finished,
        }
    }

    /// Takes in what happened when the pending action was performed; returns
    /// the outcome of the current key once it is settled.
    pub fn step(&mut self, event: Event) -> (r: Option<DownloadOutcome>)
        requires
            old(self)@.well_formed(),
        ensures
            final(self)@.well_formed(),
            (final(self)@, r) == old(self)@.step(event),
    {
        match (self.phase, event) {
            (Phase::Fetching, Event::Fetched { bytes_len }) => {
                self.phase = Phase::Storing;
                self.fetched_len = bytes_len;
                None
            },
            (Phase::Fetching, Event::FetchFailed { error }) => {
                let policy = RetryPolicy { max_retries: self.max_retries };
                match policy.after_failure(self.failures + 1) {
                    RetryDecision::Retry { .. } => {
                        self.failures = self.failures + 1;
                        self.phase = Phase::Waiting;
                        None
                    },
                    RetryDecision::GiveUp => {
                        self.advance();
                        Some(DownloadOutcome::Failed { last_error: error })
                    },
                }
            },
            (Phase::Waiting, Event::Slept) => {
                self.phase = Phase::Fetching;
                None
            },
            (Phase::Storing, Event::Stored) => {
                let bytes_len = self.fetched_len;
                self.advance();
                Some(DownloadOutcome::Succeeded { bytes_len })
            },
            (Phase::Storing, Event::StoreFailed { error }) => {
                self.advance();
                Some(DownloadOutcome::Failed { last_error: error })
            },
            _ => None,
        }
    }

    fn advance(&mut self)
        requires
            old(self)@.well_formed(),
            old(self)@.phase != Phase::Done,
        ensures
            final(self)@ == old(self)@.advanced(),
    {
        self.pos = self.pos + 1;
        self.failures = 0;
        self.fetched_len = 0;
        self.phase = if self.pos < self.keys.len() {
            Phase::Fetching
        } else {
            Phase::Done
        };
    }

    /// The key at position `index` of this worker's keys.
    pub fn key(&self, index: usize) -> (r: &String)
        requires
            index < self@.keys.len(),
        ensures
            *r == self@.keys[index as int],
    {
        &self.keys[index]
    }

    /// How many keys this worker was assigned: the exact denominator of its
    /// progress display.
    pub fn assigned(&self) -> (r: usize)
        ensures
            r == self@.keys.len(),
    {
        self.keys.len()
    }

    /// How many keys have been settled, successfully or not.
    pub fn completed(&self) -> (r: usize)
        ensures
            r == self@.pos,
    {
        self.pos
    }
}

/// The state reached by feeding `events` to a worker one after another.
pub open spec fn run(v: WorkerView, events: Seq<Event>) -> WorkerView
    decreases events.len(),
{
    if events.len() == 0 {
        v
    } else {
        run(v.step(events[0]).0, events.drop_first())
    }
}

/// The actions a worker asks for while `events` are fed to it, one before
/// each event.
pub open spec fn trace(v: WorkerView, events: Seq<Event>) -> Seq<Action>
    decreases events.len(),
{
    if events.len() == 0 {
        Seq::empty()
    } else {
        seq![v.pending()] + trace(v.step(events[0]).0, events.drop_first())
    }
}

/// How many fetches `t` asks for.
pub open spec fn fetch_count(t: Seq<Action>) -> nat
    decreases t.len(),
{
    if t.len() == 0 {
        0
    } else {
        (if t[0] is Fetch {
            1nat
        } else {
            0nat
        }) + fetch_count(t.drop_first())
    }
}

/// How many seconds of sleep `t` asks for.
pub open spec fn sleep_total(t: Seq<Action>) -> nat
    decreases t.len(),
{
    if t.len() == 0 {
        0
    } else {
        (if t[0] is Sleep {
            t[0]->secs as nat
        } else {
            0nat
        }) + sleep_total(t.drop_first())
    }
}

/// `k` failed fetches, each followed by the sleep it calls for, then `last`.
pub open spec fn retry_events(k: nat, last: Event, error: String) -> Seq<Event>
    decreases k,
{
    if k == 0 {
        seq![last]
    } else {
        seq![Event::FetchFailed { error }, Event::Slept] + retry_events((k - 1) as nat, last, error)
    }
}

/// A key whose first `k` fetches fail, for `k` within the retry budget, and
/// whose next fetch succeeds is fetched exactly `k + 1` times, with sleeps
/// of `2, 4, ..., 2^k` seconds in between (`2^(k+1) - 2` in all), and its
/// bytes are then stored.
pub proof fn lemma_retry_then_success(v: WorkerView, k: nat, bytes_len: u64, error: String)
    requires
        v.well_formed(),
        v.phase == Phase::Fetching,
        v.failures == 0,
        k <= v.max_retries,
    ensures
        fetch_count(trace(v, retry_events(k, Event::Fetched { bytes_len }, error))) == k + 1,
        sleep_total(trace(v, retry_events(k, Event::Fetched { bytes_len }, error))) == pow2(k + 1)
            - 2,
        run(v, retry_events(k, Event::Fetched { bytes_len }, error)) == (WorkerView {
            failures: k,
            phase: Phase::Storing,
            fetched_len: bytes_len as nat,
            ..v
        }),
{
    lemma_retry_schedule(v, k, Event::Fetched { bytes_len }, error);
    lemma_total_backoff(k);
}

/// A key whose every fetch fails is fetched `max_retries + 1` times, with
/// sleeps of `2^(max_retries+1) - 2` seconds in all; then the worker reports
/// the failure and moves on to its next key.  With no retries: one fetch and
/// no sleep.
pub proof fn lemma_retries_exhausted(v: WorkerView, error: String)
    requires
        v.well_formed(),
        v.phase == Phase::Fetching,
        v.failures == 0,
    ensures
        fetch_count(trace(v, retry_events(v.max_retries, Event::FetchFailed { error }, error)))
            == v.max_retries + 1,
        sleep_total(trace(v, retry_events(v.max_retries, Event::FetchFailed { error }, error)))
            == pow2(v.max_retries + 1) - 2,
        run(v, retry_events(v.max_retries, Event::FetchFailed { error }, error)) == v.advanced(),
{
    lemma_retry_schedule(v, v.max_retries, Event::FetchFailed { error }, error);
    lemma_total_backoff(v.max_retries);
    let u = WorkerView { failures: v.max_retries, ..v };
    assert(u.advanced() == v.advanced());
}

/// A worker with no keys asks for no fetch, whatever it is told, and never
/// changes: it reports no outcome.
pub proof fn lemma_empty_worker_never_fetches(v: WorkerView, events: Seq<Event>)
    requires
        v.well_formed(),
        v.keys.len() == 0,
    ensures
        fetch_count(trace(v, events)) == 0,
        run(v, events) == v,
        forall|i: int| 0 <= i < events.len() ==> (#[trigger] v.step(events[i])).1 is None,
    decreases events.len(),
{
    if events.len() > 0 {
        assert(v.phase == Phase::Done);
        assert(v.step(events[0]).0 == v);
        lemma_empty_worker_never_fetches(v, events.drop_first());
        let t = trace(v, events);
        assert(t.drop_first() == trace(v, events.drop_first()));
        assert(fetch_count(t) == 0 + fetch_count(t.drop_first()));
    }
}

/// From a fetching state with `f` failures, `k` more failures (within the
/// budget) and then `last` take `k + 1` fetches and the sleeps for failures
/// `f + 1` to `f + k`, and end where `last` leads from `f + k` failures.
proof fn lemma_retry_schedule(v: WorkerView, k: nat, last: Event, error: String)
    requires
        v.well_formed(),
        v.phase == Phase::Fetching,
        v.failures + k <= v.max_retries,
        last is Fetched || last is FetchFailed,
    ensures
        fetch_count(trace(v, retry_events(k, last, error))) == k + 1,
        sleep_total(trace(v, retry_events(k, last, error))) == total_backoff(v.failures + k)
            - total_backoff(v.failures),
        run(v, retry_events(k, last, error)) == (WorkerView { failures: v.failures + k, ..v }).step(
            last,
        ).0,
    decreases k,
{
    let evs = retry_events(k, last, error);
    if k == 0 {
        assert(evs == seq![last]);
        let t = trace(v, evs);
        assert(evs.drop_first().len() == 0);
        assert(trace(v.step(last).0, evs.drop_first()) == Seq::<Action>::empty());
        assert(t == seq![v.pending()]);
        assert(t.drop_first() == Seq::<Action>::empty());
        assert(fetch_count(t) == 1 + fetch_count(t.drop_first()));
        assert(sleep_total(t) == 0 + sleep_total(t.drop_first()));
        assert(WorkerView { failures: v.failures + k, ..v } == v);
        assert(run(v, evs) == run(v.step(last).0, evs.drop_first()));
    } else {
        let rest = retry_events((k - 1) as nat, last, error);
        let w1 = v.step(Event::FetchFailed { error }).0;
        let w2 = w1.step(Event::Slept).0;
        assert(w1 == WorkerView { failures: v.failures + 1, phase: Phase::Waiting, ..v });
        assert(w2 == WorkerView { failures: v.failures + 1, ..v });
        assert(evs[0] == Event::FetchFailed { error });
        assert(evs.drop_first()[0] == Event::Slept);
        assert(evs.drop_first().drop_first() == rest);
        lemma_retry_schedule(w2, (k - 1) as nat, last, error);
        let t = trace(v, evs);
        assert(t == seq![v.pending()] + trace(w1, evs.drop_first()));
        assert(trace(w1, evs.drop_first()) == seq![w1.pending()] + trace(w2, rest));
        assert(t.drop_first() == trace(w1, evs.drop_first()));
        assert(t.drop_first().drop_first() == trace(w2, rest));
        assert(run(v, evs) == run(w1, evs.drop_first()));
        assert(run(w1, evs.drop_first()) == run(w2, rest));
        assert(WorkerView { failures: w2.failures + (k - 1) as nat, ..w2 } == WorkerView {
            failures: v.failures + k,
            ..v
        });
        assert(total_backoff(v.failures + 1) == total_backoff(v.failures) + pow2(v.failures + 1));
        lemma_pow2_fits(v.failures + 1);
        assert(w1.pending() == Action::Sleep { secs: pow2(v.failures + 1) as u64 });
        assert(fetch_count(t) == 1 + fetch_count(t.drop_first()));
        assert(fetch_count(t.drop_first()) == 0 + fetch_count(trace(w2, rest)));
        assert(sleep_total(t) == 0 + sleep_total(t.drop_first()));
        assert(sleep_total(t.drop_first()) == pow2(v.failures + 1) + sleep_total(trace(w2, rest)));
    }
}

} // verus!
