//! Progress of an indexing job: throttled snapshots handed to a sink that the
//! frontend polls.

use vstd::prelude::*;
use crate::model::JobCounts;
use crate::text::{str_chars, string_from_chars};

verus! {

/// Phases that map one to one to the frontend's indexing phases.
#[derive(Clone, Copy, Debug, PartialEq, Eq, Structural)]
pub enum Phase {
    Discovering,
    Fingerprinting,
    Extracting,
}

/// One progress update.
#[derive(Clone)]
pub struct ProgressSnapshot {
    pub job_id: i64,
    pub root_id: i64,
    pub seq: u64,
    pub phase: Phase,
    pub files_total: i64,
    pub files_done: i64,
    pub files_added: i64,
    pub files_updated: i64,
    pub files_moved: i64,
    pub files_deleted: i64,
    pub error_count: i64,
    /// Relative path of the file currently being processed, if any.
    pub current_file: Option<String>,
    pub extraction_total: i64,
    pub extraction_done: i64,
    /// True once the job has finished, so the frontend can stop polling.
    pub is_complete: bool,
}

/// Where snapshots go. Tests capture them; the application stores the latest one.
pub trait ProgressSink: Send + 'static {
    fn write(&self, snapshot: ProgressSnapshot);

    /// Marks the last snapshot complete in place, keeping its counts.
    fn mark_complete(&self);
}

/// `std::sync::Mutex`.
#[verifier::external_type_specification]
#[verifier::external_body]
#[verifier::reject_recursive_types(T)]
pub struct ExMutex<T: ?Sized>(std::sync::Mutex<T>);

/// `std::sync::MutexGuard`.
#[verifier::external_type_specification]
#[verifier::external_body]
#[verifier::reject_recursive_types(T)]
pub struct ExMutexGuard<'a, T: ?Sized + 'a>(std::sync::MutexGuard<'a, T>);

/// Shared slot holding the latest snapshot: written by the indexer, read by polling.
pub type ProgressStore = std::sync::Arc<std::sync::Mutex<Option<ProgressSnapshot>>>;

/// What a slot's mutex was made holding (empty, or the one snapshot). This is the value
/// `Mutex::new` was given; later writes through the lock do not change what it names.
pub uninterp spec fn mutex_created_with(m: std::sync::Mutex<Option<ProgressSnapshot>>) -> Seq<ProgressSnapshot>;

/// `Mutex::new`: a mutex holding `v`.
#[verifier::external_body]
fn mutex_new(v: Option<ProgressSnapshot>) -> (r: std::sync::Mutex<Option<ProgressSnapshot>>)
    ensures
        mutex_created_with(r) == match v {
            Some(s) => seq![s],
            None => Seq::<ProgressSnapshot>::empty(),
        },
{
    std::sync::Mutex::new(v)
}

/// `Mutex::lock`; a poisoned lock still yields its guard (`PoisonError::into_inner`).
#[verifier::external_body]
fn lock_store(m: &std::sync::Mutex<Option<ProgressSnapshot>>) -> std::sync::MutexGuard<
    '_,
    Option<ProgressSnapshot>,
> {
    match m.lock() {
        Ok(g) => g,
        Err(e) => e.into_inner(),
    }
}

/// `DerefMut` of a guard: the slot inside the lock.
#[verifier::external_body]
fn guarded_slot<'a, 'b>(g: &'a mut std::sync::MutexGuard<'b, Option<ProgressSnapshot>>) -> &'a mut Option<
    ProgressSnapshot,
> {
    &mut *g
}

/// A new, empty progress store: its slot holds no snapshot until a job writes one.
pub fn new_store() -> (r: ProgressStore)
    ensures
        mutex_created_with(*r) == Seq::<ProgressSnapshot>::empty(),
{
    std::sync::Arc::new(mutex_new(None))
}

/// Production sink: keeps the latest snapshot in a [`ProgressStore`].
pub struct StoreSink(pub ProgressStore);

/// A store's slot after a snapshot is written into it: that snapshot.
pub fn put_snapshot(slot: &mut Option<ProgressSnapshot>, snapshot: ProgressSnapshot)
    ensures
        *final(slot) == Some(snapshot),
{
    *slot = Some(snapshot);
}

/// A store's slot after the job completes: the snapshot it holds marked complete, with
/// every other field kept; an empty slot stays empty.
pub fn complete_slot(slot: &mut Option<ProgressSnapshot>)
    ensures
        *final(slot) == match *old(slot) {
            Some(s) => Some(ProgressSnapshot { is_complete: true, ..s }),
            None => None,
        },
{
    match slot {
        Some(s) => {
            s.is_complete = true;
        },
        None => {},
    }
}

impl ProgressSink for StoreSink {
    fn write(&self, snapshot: ProgressSnapshot) {
        let m: &std::sync::Mutex<Option<ProgressSnapshot>> = &*self.0;
        let mut g = lock_store(m);
        put_snapshot(guarded_slot(&mut g), snapshot);
    }

    fn mark_complete(&self) {
        let m: &std::sync::Mutex<Option<ProgressSnapshot>> = &*self.0;
        let mut g = lock_store(m);
        complete_slot(guarded_slot(&mut g));
    }
}

} // verus!

verus! {

/// `std::time::Instant`.
#[verifier::external_type_specification]
#[verifier::external_body]
pub struct ExInstant(std::time::Instant);

/// `Instant::now()`: the current time, of which nothing is known.
#[verifier::external_body]
fn instant_now() -> std::time::Instant {
    std::time::Instant::now()
}

/// `Instant::elapsed()` in whole milliseconds: it depends on the clock alone.
#[verifier::external_body]
fn elapsed_millis(t: &std::time::Instant) -> u128 {
    t.elapsed().as_millis()
}

/// Minimum time between two throttled snapshots, in milliseconds.
pub const DEFAULT_THROTTLE_MS: u64 = 150;

/// What the reporter handed to its sink.
pub enum SinkEvent {
    Write(ProgressSnapshot),
    MarkComplete,
}

/// Abstract state of a reporter.
pub struct ReporterView {
    pub job_id: i64,
    pub root_id: i64,
    /// Sequence number of the last snapshot written (0 before the first).
    pub seq: u64,
    pub throttle_ms: u64,
    pub extraction_total: i64,
    pub extraction_done: i64,
    /// Everything handed to the sink so far, in order.
    pub events: Seq<SinkEvent>,
}

/// Writes progress snapshots, throttled, to a sink.
pub struct ProgressReporter<S: ProgressSink> {
    sink: S,
    job_id: i64,
    root_id: i64,
    log: WriteLog,
    throttle_ms: u64,
    extraction_total: i64,
    extraction_done: i64,
}

/// Sequence number of the last write, with the history it counts.
struct WriteLog {
    seq: u64,
    events: Ghost<Seq<SinkEvent>>,
    /// When the last snapshot was written; `None` before the first.
    last_sent: Option<std::time::Instant>,
}

/// `s` carries exactly these values.
pub open spec fn snapshot_is(
    s: ProgressSnapshot,
    v: ReporterView,
    seq: u64,
    phase: Phase,
    counts: JobCounts,
    current_file: Option<Seq<char>>,
    is_complete: bool,
) -> bool {
    &&& s.job_id == v.job_id
    &&& s.root_id == v.root_id
    &&& s.seq == seq
    &&& s.phase == phase
    &&& s.files_total == counts.files_total
    &&& s.files_done == counts.files_done
    &&& s.files_added == counts.files_added
    &&& s.files_updated == counts.files_updated
    &&& s.files_moved == counts.files_moved
    &&& s.files_deleted == counts.files_deleted
    &&& s.error_count == counts.error_count
    &&& match current_file {
        Some(f) => s.current_file matches Some(c) && c@ == f,
        None => s.current_file is None,
    }
    &&& s.extraction_total == v.extraction_total
    &&& s.extraction_done == v.extraction_done
    &&& s.is_complete == is_complete
}

/// `w` is `v` after writing one snapshot with these values.
pub open spec fn wrote_one(
    v: ReporterView,
    w: ReporterView,
    phase: Phase,
    counts: JobCounts,
    current_file: Option<Seq<char>>,
) -> bool {
    &&& w.job_id == v.job_id
    &&& w.root_id == v.root_id
    &&& w.seq == v.seq + 1
    &&& w.throttle_ms == v.throttle_ms
    &&& w.extraction_total == v.extraction_total
    &&& w.extraction_done == v.extraction_done
    &&& w.events.len() == v.events.len() + 1
    &&& w.events.subrange(0, v.events.len() as int) == v.events
    &&& w.events.last() matches SinkEvent::Write(s) && snapshot_is(
        s,
        v,
        (v.seq + 1) as u64,
        phase,
        counts,
        current_file,
        false,
    )
}

/// Same reporter state.
pub open spec fn same_view(v: ReporterView, w: ReporterView) -> bool {
    &&& w.job_id == v.job_id
    &&& w.root_id == v.root_id
    &&& w.seq == v.seq
    &&& w.throttle_ms == v.throttle_ms
    &&& w.extraction_total == v.extraction_total
    &&& w.extraction_done == v.extraction_done
    &&& w.events == v.events
}

/// The written snapshots carry sequence numbers `1, 2, ...` in order, and `seq` is the last.
pub open spec fn seqs_ok(events: Seq<SinkEvent>, seq: u64) -> bool {
    &&& writes_count(events) == seq
    &&& forall|i: int|
        0 <= i < events.len() ==> (#[trigger] events[i] matches SinkEvent::Write(s) ==> s.seq
            == writes_count(events.subrange(0, i + 1)))
}

/// Number of `Write` events.
pub open spec fn writes_count(events: Seq<SinkEvent>) -> int
    decreases events.len(),
{
    if events.len() == 0 {
        0
    } else {
        writes_count(events.drop_last()) + if events.last() is Write {
            1int
        } else {
            0int
        }
    }
}

impl<S: ProgressSink> View for ProgressReporter<S> {
    type V = ReporterView;

    closed spec fn view(&self) -> ReporterView {
        ReporterView {
            job_id: self.job_id,
            root_id: self.root_id,
            seq: self.log.seq,
            throttle_ms: self.throttle_ms,
            extraction_total: self.extraction_total,
            extraction_done: self.extraction_done,
            events: self.log.events@,
        }
    }
}

impl<S: ProgressSink> ProgressReporter<S> {
    #[verifier::type_invariant]
    closed spec fn inv(self) -> bool {
        &&& seqs_ok(self.log.events@, self.log.seq)
        &&& (self.log.last_sent is None <==> self.log.seq == 0)
    }

    /// A reporter for a job; its first snapshot is never throttled.
    pub fn new(sink: S, job_id: i64, root_id: i64) -> (r: Self)
        ensures
            r@.job_id == job_id,
            r@.root_id == root_id,
            r@.seq == 0,
            r@.throttle_ms == DEFAULT_THROTTLE_MS,
            r@.extraction_total == 0,
            r@.extraction_done == 0,
            r@.events.len() == 0,
    {
        ProgressReporter {
            sink,
            job_id,
            root_id,
            log: WriteLog { seq: 0, events: Ghost(Seq::empty()), last_sent: None },
            throttle_ms: DEFAULT_THROTTLE_MS,
            extraction_total: 0,
            extraction_done: 0,
        }
    }

    /// A reporter that writes on every tick (for tests and small batches).
    pub fn without_throttle(sink: S, job_id: i64, root_id: i64) -> (r: Self)
        ensures
            r@.job_id == job_id,
            r@.root_id == root_id,
            r@.seq == 0,
            r@.throttle_ms == 0,
            r@.extraction_total == 0,
            r@.extraction_done == 0,
            r@.events.len() == 0,
    {
        ProgressReporter {
            sink,
            job_id,
            root_id,
            log: WriteLog { seq: 0, events: Ghost(Seq::empty()), last_sent: None },
            throttle_ms: 0,
            extraction_total: 0,
            extraction_done: 0,
        }
    }

    pub fn job_id(&self) -> (r: i64)
        ensures
            r == self@.job_id,
    {
        self.job_id
    }

    /// Sequence number of the last snapshot written (0 before the first).
    pub fn seq(&self) -> (r: u64)
        ensures
            r == self@.seq,
    {
        self.log.seq
    }

    /// Number of files whose extraction has finished.
    pub fn extraction_done(&self) -> (r: i64)
        ensures
            r == self@.extraction_done,
    {
        self.extraction_done
    }

    pub fn set_job_id(&mut self, job_id: i64)
        ensures
            final(self)@ == (ReporterView { job_id, ..old(self)@ }),
    {
        proof {
            use_type_invariant(&*self);
        }
        self.job_id = job_id;
    }

    /// Starts counting extraction progress over `total` files.
    pub fn set_extraction_total(&mut self, total: i64)
        ensures
            final(self)@ == (ReporterView { extraction_total: total, extraction_done: 0, ..old(self)@ }),
    {
        proof {
            use_type_invariant(&*self);
        }
        self.extraction_total = total;
        self.extraction_done = 0;
    }

    /// One more file went through extraction.
    pub fn advance_extraction(&mut self)
        requires
            old(self)@.extraction_done < i64::MAX,
        ensures
            final(self)@ == advanced(old(self)@),
    {
        proof {
            use_type_invariant(&*self);
        }
        self.extraction_done = self.extraction_done + 1;
    }

    /// Throttled write, given the time since the last write (`None` before the first):
    /// writes when that is unknown or at least the throttle interval.
    pub fn tick_after(
        &mut self,
        elapsed_ms: Option<u128>,
        phase: Phase,
        counts: &JobCounts,
        current_file: Option<&str>,
    ) -> (wrote: bool)
        requires
            old(self)@.seq < u64::MAX,
        ensures
            wrote == match elapsed_ms {
                None => true,
                Some(e) => e >= old(self)@.throttle_ms,
            },
            wrote ==> wrote_one(old(self)@, final(self)@, phase, *counts, opt_view(current_file)),
            !wrote ==> same_view(old(self)@, final(self)@),
            seqs_ok(final(self)@.events, final(self)@.seq),
    {
        let due = match elapsed_ms {
            None => true,
            Some(e) => e >= self.throttle_ms as u128,
        };
        if due {
            self.write(phase, counts, current_file);
        }
        proof {
            use_type_invariant(&*self);
        }
        due
    }

    /// Throttled write: fires only if the throttle interval has elapsed since the last one;
    /// the first snapshot of a reporter is written at once.
    pub fn tick(&mut self, phase: Phase, counts: &JobCounts, current_file: Option<&str>)
        requires
            old(self)@.seq < u64::MAX,
        ensures
            old(self)@.seq == 0 ==> wrote_one(
                old(self)@,
                final(self)@,
                phase,
                *counts,
                opt_view(current_file),
            ),
            same_view(old(self)@, final(self)@) || wrote_one(
                old(self)@,
                final(self)@,
                phase,
                *counts,
                opt_view(current_file),
            ),
            seqs_ok(final(self)@.events, final(self)@.seq),
    {
        proof {
            use_type_invariant(&*self);
        }
        let elapsed: Option<u128> = match &self.log.last_sent {
            None => None,
            Some(t) => Some(elapsed_millis(t)),
        };
        self.tick_after(elapsed, phase, counts, current_file);
    }

    /// Unconditional write, without a current file: at job start and phase changes.
    pub fn force(&mut self, phase: Phase, counts: &JobCounts)
        requires
            old(self)@.seq < u64::MAX,
        ensures
            wrote_one(old(self)@, final(self)@, phase, *counts, None),
            seqs_ok(final(self)@.events, final(self)@.seq),
    {
        self.write(phase, counts, None);
        proof {
            use_type_invariant(&*self);
        }
    }

    /// Marks the last snapshot complete in place, so the frontend stops polling while
    /// keeping the latest counts, phase and file.
    pub fn finish_with_last(&mut self)
        ensures
            final(self)@ == (ReporterView {
                events: old(self)@.events.push(SinkEvent::MarkComplete),
                ..old(self)@
            }),
            seqs_ok(final(self)@.events, final(self)@.seq),
    {
        proof {
            use_type_invariant(&*self);
        }
        self.sink.mark_complete();
        let ghost old_events = self.log.events@;
        let ghost e = old_events.push(SinkEvent::MarkComplete);
        proof {
            assert(e.drop_last() =~= old_events);
            assert forall|i: int|
                0 <= i < e.len() implies (#[trigger] e[i] matches SinkEvent::Write(s) ==> s.seq
                == writes_count(e.subrange(0, i + 1))) by {
                if i < old_events.len() {
                    assert(e.subrange(0, i + 1) =~= old_events.subrange(0, i + 1));
                }
            }
        }
        let last_sent = self.log.last_sent;
        self.log = WriteLog { seq: self.log.seq, events: Ghost(e), last_sent };
    }

    fn write(&mut self, phase: Phase, counts: &JobCounts, current_file: Option<&str>)
        requires
            old(self)@.seq < u64::MAX,
        ensures
            wrote_one(old(self)@, final(self)@, phase, *counts, opt_view(current_file)),
    {
        proof {
            use_type_invariant(&*self);
        }
        let seq = self.log.seq + 1;
        let current: Option<String> = match current_file {
            Some(f) => Some(string_from_chars(str_chars(f))),
            None => None,
        };
        let snapshot = ProgressSnapshot {
            job_id: self.job_id,
            root_id: self.root_id,
            seq,
            phase,
            files_total: counts.files_total,
            files_done: counts.files_done,
            files_added: counts.files_added,
            files_updated: counts.files_updated,
            files_moved: counts.files_moved,
            files_deleted: counts.files_deleted,
            error_count: counts.error_count,
            current_file: current,
            extraction_total: self.extraction_total,
            extraction_done: self.extraction_done,
            is_complete: false,
        };
        let ghost old_events = self.log.events@;
        let ghost e = old_events.push(SinkEvent::Write(snapshot));
        proof {
            assert(e.drop_last() =~= old_events);
            assert(e.subrange(0, old_events.len() as int) =~= old_events);
            assert(e.subrange(0, e.len() as int) =~= e);
            assert forall|i: int|
                0 <= i < e.len() implies (#[trigger] e[i] matches SinkEvent::Write(s) ==> s.seq
                == writes_count(e.subrange(0, i + 1))) by {
                if i < old_events.len() {
                    assert(e.subrange(0, i + 1) =~= old_events.subrange(0, i + 1));
                }
            }
        }
        self.sink.write(snapshot);
        self.log = WriteLog { seq, events: Ghost(e), last_sent: Some(instant_now()) };
    }
}

/// `v` after one more file went through extraction.
pub open spec fn advanced(v: ReporterView) -> ReporterView {
    ReporterView { extraction_done: (v.extraction_done + 1) as i64, ..v }
}

/// `w` has the extraction counts of `v` (as every call but `set_extraction_total` and
/// `advance_extraction` leaves them).
pub open spec fn keeps_extraction(v: ReporterView, w: ReporterView) -> bool {
    w.extraction_total == v.extraction_total && w.extraction_done == v.extraction_done
}

/// Number of `true` entries.
pub open spec fn count_true(bs: Seq<bool>) -> int
    decreases bs.len(),
{
    if bs.len() == 0 {
        0
    } else {
        count_true(bs.drop_last()) + if bs.last() {
            1int
        } else {
            0int
        }
    }
}

/// View of an optional text.
pub open spec fn opt_view(o: Option<&str>) -> Option<Seq<char>> {
    match o {
        Some(s) => Some(s@),
        None => None,
    }
}


/// Sequence number of a written snapshot (`-1` for a completion mark).
pub open spec fn written_seq(e: SinkEvent) -> int {
    match e {
        SinkEvent::Write(s) => s.seq as int,
        SinkEvent::MarkComplete => -1,
    }
}

proof fn lemma_writes_count_prefix(events: Seq<SinkEvent>, m: int, n: int)
    requires
        0 <= m <= n <= events.len(),
    ensures
        writes_count(events.subrange(0, m)) <= writes_count(events.subrange(0, n)),
    decreases n - m,
{
    if m < n {
        lemma_writes_count_prefix(events, m, n - 1);
        assert(events.subrange(0, n).drop_last() =~= events.subrange(0, n - 1));
    }
}

/// Snapshots handed to the sink carry strictly increasing sequence numbers, so the
/// frontend can drop stale ones.
pub proof fn lemma_snapshot_seqs_increase(events: Seq<SinkEvent>, seq: u64, i: int, j: int)
    requires
        seqs_ok(events, seq),
        0 <= i < j < events.len(),
        events[i] is Write,
        events[j] is Write,
    ensures
        written_seq(events[i]) < written_seq(events[j]),
{
    lemma_writes_count_prefix(events, i + 1, j);
    assert(events.subrange(0, j + 1).drop_last() =~= events.subrange(0, j));
}

/// Extraction progress counts the advances: from `set_extraction_total(t)` (or a new
/// reporter, with `t == 0`), through calls that each either advance by one or leave the
/// counts alone (`tick`, `force`, `finish_with_last`, `set_job_id`), the reporter's total
/// stays `t` and its done count is the number of advances, and the next snapshot it
/// writes carries both.
pub proof fn lemma_advances_counted(vs: Seq<ReporterView>, steps: Seq<bool>, t: i64)
    requires
        vs.len() == steps.len() + 1,
        vs[0].extraction_total == t,
        vs[0].extraction_done == 0,
        forall|i: int|
            0 <= i < steps.len() ==> if #[trigger] steps[i] {
                vs[i].extraction_done < i64::MAX && vs[i + 1] == advanced(vs[i])
            } else {
                keeps_extraction(vs[i], vs[i + 1])
            },
    ensures
        vs.last().extraction_total == t,
        vs.last().extraction_done == count_true(steps),
        forall|w: ReporterView, phase: Phase, counts: JobCounts, f: Option<Seq<char>>|
            #[trigger] wrote_one(vs.last(), w, phase, counts, f) ==> (w.events.last() matches SinkEvent::Write(
                s,
            ) && s.extraction_total == t && s.extraction_done == count_true(steps)),
    decreases steps.len(),
{
    if steps.len() == 0 {
        assert(vs.last() == vs[0]);
    } else {
        let n = steps.len() - 1;
        let p = vs.subrange(0, n + 1);
        let ps = steps.drop_last();
        assert forall|i: int| 0 <= i < ps.len() implies if #[trigger] ps[i] {
            p[i].extraction_done < i64::MAX && p[i + 1] == advanced(p[i])
        } else {
            keeps_extraction(p[i], p[i + 1])
        } by {
            assert(ps[i] == steps[i]);
            assert(p[i] == vs[i] && p[i + 1] == vs[i + 1]);
        }
        lemma_advances_counted(p, ps, t);
        assert(p.last() == vs[n]);
        assert(steps[n] == steps.last());
        assert(vs.last() == vs[n + 1]);
    }
    assert forall|w: ReporterView, phase: Phase, counts: JobCounts, f: Option<Seq<char>>|
        #[trigger] wrote_one(vs.last(), w, phase, counts, f) implies (w.events.last() matches SinkEvent::Write(
        s,
    ) && s.extraction_total == t && s.extraction_done == count_true(steps)) by {}
}

} // verus!
