//! The decisions of a chunked sync: configuration check, which partitions
//! an execution processes, running totals, when to advance the cursor and
//! when to pause.
use vstd::prelude::*;

use std::time::Duration;

use crate::datasync::chunk::iterate::pauses_after;
use crate::datasync::chunk::partition::{is_empty_summary, Partition, PartitionResult, SyncResult};
use crate::duration::{duration_nanos, nanos_in, zero_duration};
use crate::error::{fails_with, Error};

verus! {

broadcast use vstd::string::group_string_axioms;

/// Configuration of a chunked sync.
#[derive(Debug, Clone)]
pub struct ChunkedSyncConfig {
    /// Job name, echoed in the summary and handed to the cursor.
    pub(crate) job_name: String,
    /// Pause between consecutive partitions; zero disables it.
    pub(crate) partition_sleep: Duration,
    /// Most partitions one execution processes; zero means no limit.
    pub(crate) max_partitions_per_execution: usize,
}

impl ChunkedSyncConfig {
    /// The job name.
    pub closed spec fn job(&self) -> Seq<char> {
        self.job_name@
    }

    /// The pause between consecutive partitions.
    pub closed spec fn sleep(&self) -> Duration {
        self.partition_sleep
    }

    /// The most partitions one execution processes; zero means no limit.
    pub closed spec fn cap(&self) -> usize {
        self.max_partitions_per_execution
    }

    /// A configuration with no pause and no limit.
    pub fn new(job_name: &str) -> (r: Self)
        ensures
            r.job() == job_name@,
            nanos_in(r.sleep()) == 0,
            r.cap() == 0,
    {
        ChunkedSyncConfig { job_name: job_name.to_string(), partition_sleep: zero_duration(), max_partitions_per_execution: 0 }
    }

    /// Sets the pause between consecutive partitions.
    pub fn partition_sleep(self, sleep: Duration) -> (r: Self)
        ensures
            r.job() == self.job(),
            r.sleep() == sleep,
            r.cap() == self.cap(),
    {
        ChunkedSyncConfig { partition_sleep: sleep, ..self }
    }

    /// Caps how many partitions one execution processes (zero: no cap).
    /// A cap needs a cursor, or the next execution would start over.
    pub fn max_partitions_per_execution(self, n: usize) -> (r: Self)
        ensures
            r.job() == self.job(),
            r.sleep() == self.sleep(),
            r.cap() == n,
    {
        ChunkedSyncConfig { max_partitions_per_execution: n, ..self }
    }
}

/// How a chunked sync remembers progress: not at all, or by reading where
/// the last execution stopped and advancing after each partition.
pub enum Cursor<ReadFn, AdvFn> {
    /// No progress tracking: every execution starts from the first partition.
    Untracked,
    /// Progress tracking.
    Stored {
        /// Reads the stored cursor.
        read: ReadFn,
        /// Stores a new cursor.
        advance: AdvFn,
    },
}

impl<ReadFn, AdvFn> Cursor<ReadFn, AdvFn> {
    /// `true` for `Cursor::Stored`.
    pub fn is_stored(&self) -> (r: bool)
        ensures
            r == (self is Stored),
    {
        match self {
            Cursor::Untracked => false,
            Cursor::Stored { .. } => true,
        }
    }
}

/// The message for a cap without a cursor.
pub open spec fn msg_cap_needs_cursor() -> Seq<char> {
    "max_partitions_per_execution requires a cursor — without one, the next execution would re-process the same prefix forever"@
}

/// Refuses a per-execution cap without a cursor.
pub fn check_chunk_config(config: &ChunkedSyncConfig, has_cursor: bool) -> (r: Result<(), Error>)
    ensures
        config.cap() > 0 && !has_cursor ==> fails_with(r, msg_cap_needs_cursor()),
        !(config.cap() > 0 && !has_cursor) ==> r is Ok,
{
    if config.max_partitions_per_execution > 0 && !has_cursor {
        return Err(
            Error::InvalidInput(
                "max_partitions_per_execution requires a cursor — without one, the next execution would re-process the same prefix forever".to_string(),
            ),
        );
    }
    Ok(())
}

/// Which partitions an execution keeps given the stored cursor: every one
/// when there is none; otherwise exactly those whose start is not before
/// it, as the key type's strict order (`before(start, cursor)`) says, so a
/// partition starting at the cursor itself is kept.
pub fn cursor_flags<K, F: Fn(&K, &K) -> bool>(parts: &Vec<Partition<K>>, cursor: &Option<K>, before: &F) -> (r: Vec<bool>)
    requires
        forall|a: &K, b: &K| call_requires(*before, (a, b)),
    ensures
        r.len() == parts.len(),
        cursor is None ==> forall|i: int| 0 <= i < r.len() ==> #[trigger] r@[i],
        cursor matches Some(c) ==> forall|i: int| 0 <= i < r.len() ==> call_ensures(
            *before,
            (&parts@[i].start, &c),
            !#[trigger] r@[i],
        ),
{
    let mut out: Vec<bool> = Vec::new();
    let mut i: usize = 0;
    while i < parts.len()
        invariant
            i <= parts.len(),
            out.len() == i,
            forall|a: &K, b: &K| call_requires(*before, (a, b)),
            cursor is None ==> forall|j: int| 0 <= j < i ==> #[trigger] out@[j],
            cursor matches Some(c) ==> forall|j: int| 0 <= j < i ==> call_ensures(
                *before,
                (&parts@[j].start, &c),
                !#[trigger] out@[j],
            ),
        decreases parts.len() - i,
    {
        let keep = match cursor {
            None => true,
            Some(c) => !before(&parts[i].start, c),
        };
        out.push(keep);
        i += 1;
    }
    out
}

/// The partitions whose `keep` flag is set, in order.
pub open spec fn kept_partitions<K>(parts: Seq<Partition<K>>, keep: Seq<bool>) -> Seq<Partition<K>>
    decreases parts.len(),
{
    if parts.len() == 0 {
        seq![]
    } else if keep[parts.len() - 1] {
        kept_partitions(parts.drop_last(), keep.take(parts.len() - 1)).push(parts.last())
    } else {
        kept_partitions(parts.drop_last(), keep.take(parts.len() - 1))
    }
}

/// Whether a cap of `max` leaves some of `count` partitions for later.
pub open spec fn defers(count: int, max: int) -> bool {
    max > 0 && count > max
}

/// The partitions one execution processes out of `kept`: all of them, or
/// the first `max` when the cap defers the rest.
pub open spec fn planned_partitions<K>(kept: Seq<Partition<K>>, max: int) -> Seq<Partition<K>> {
    if defers(kept.len() as int, max) {
        kept.take(max)
    } else {
        kept
    }
}

/// Sum of one counter over partition results.
pub open spec fn counter_sum<K>(rs: Seq<PartitionResult<K>>, counter: spec_fn(PartitionResult<K>) -> usize) -> int
    decreases rs.len(),
{
    if rs.len() == 0 {
        0
    } else {
        counter_sum(rs.drop_last(), counter) + counter(rs.last())
    }
}

/// `s` totals `rs`: the count and the sum of each counter.
pub open spec fn totals_match<K>(s: SyncResult<K>, rs: Seq<PartitionResult<K>>) -> bool {
    &&& s.partitions@ == rs
    &&& s.total_partitions == rs.len()
    &&& s.total_fetched == counter_sum(rs, |r: PartitionResult<K>| r.fetched)
    &&& s.total_inserted == counter_sum(rs, |r: PartitionResult<K>| r.inserted)
    &&& s.total_updated == counter_sum(rs, |r: PartitionResult<K>| r.updated)
    &&& s.total_skipped == counter_sum(rs, |r: PartitionResult<K>| r.skipped)
}

/// What to do after a partition was processed.
#[derive(Debug, Clone, Copy, PartialEq, Eq, Structural)]
pub struct AfterPartition {
    /// Advance the cursor to the partition's end.
    pub advance: bool,
    /// Pause before the next partition.
    pub sleep: bool,
}

/// An execution processing its planned partitions in order.
pub struct ChunkRun<K> {
    pending: Vec<Partition<K>>,
    count: usize,
    handed_out: usize,
    sleep: Duration,
    sleep_nanos: u128,
    advances: bool,
    deferred: bool,
    summary: SyncResult<K>,
    planned: Ghost<Seq<Partition<K>>>,
}

/// How an execution goes on once its partitions are known: it is already
/// over, or it processes them.
pub enum ChunkPlan<K> {
    /// Nothing to process; the summary of the execution.
    Finished(SyncResult<K>),
    /// Partitions to process.
    Run(ChunkRun<K>),
}

/// The summary of an execution that processed nothing.
fn empty_summary<K>(job_name: &String) -> (r: SyncResult<K>)
    ensures
        is_empty_summary(r, job_name@),
{
    SyncResult {
        job_name: job_name.clone(),
        total_partitions: 0,
        total_fetched: 0,
        total_inserted: 0,
        total_updated: 0,
        total_skipped: 0,
        partitions: Vec::new(),
        deferred: false,
    }
}

impl<K> ChunkRun<K> {
    /// The partitions this execution processes, in order.
    pub closed spec fn planned(&self) -> Seq<Partition<K>> {
        self.planned@
    }

    /// How many partitions have been handed out.
    pub closed spec fn handed_out(&self) -> int {
        self.handed_out as int
    }

    /// The results recorded so far, in order.
    pub closed spec fn recorded(&self) -> Seq<PartitionResult<K>> {
        self.summary.partitions@
    }

    /// Whether the cursor is advanced after each partition.
    pub closed spec fn advances(&self) -> bool {
        self.advances
    }

    /// Whether partitions were left for a later execution.
    pub closed spec fn is_deferred(&self) -> bool {
        self.deferred
    }

    /// The pause between partitions.
    pub closed spec fn pause(&self) -> Duration {
        self.sleep
    }

    /// The pause between partitions, in nanoseconds.
    pub closed spec fn pause_nanos(&self) -> u128 {
        self.sleep_nanos
    }

    /// The job's name.
    pub closed spec fn job(&self) -> Seq<char> {
        self.summary.job_name@
    }

    /// The pause to take between partitions, for the caller's sleeper.
    pub fn partition_pause(&self) -> (r: Duration)
        ensures
            r == self.pause(),
    {
        self.sleep.clone()
    }

    /// The run's fields agree: the pending partitions are the planned ones
    /// not yet handed out (last one first), and the summary totals the
    /// recorded results.
    pub closed spec fn wf(&self) -> bool {
        &&& self.count == self.planned@.len()
        &&& self.handed_out <= self.count
        &&& self.pending@.reverse() == self.planned@.skip(self.handed_out as int)
        &&& totals_match(self.summary, self.summary.partitions@)
        &&& !self.summary.deferred
        &&& (self.summary.partitions@.len() == self.handed_out || self.summary.partitions@.len() + 1 == self.handed_out)
    }

    /// Plans an execution from the listed partitions `parts` and, per
    /// partition, whether it lies at or after the stored cursor (`keep`;
    /// all `true` without a cursor). With nothing listed or nothing kept
    /// the execution is over; otherwise it processes the kept partitions,
    /// at most `max_partitions_per_execution` of them when that is set.
    pub fn begin(config: &ChunkedSyncConfig, has_cursor: bool, parts: Vec<Partition<K>>, keep: Vec<bool>) -> (r: ChunkPlan<K>)
        requires
            keep.len() == parts.len(),
        ensures
            kept_partitions(parts@, keep@).len() == 0 ==> (r matches ChunkPlan::Finished(s) && is_empty_summary(
                s,
                config.job(),
            )),
            kept_partitions(parts@, keep@).len() > 0 ==> (r matches ChunkPlan::Run(run) && run.wf() && run.planned()
                == planned_partitions(kept_partitions(parts@, keep@), config.cap() as int) && run.is_deferred() == defers(
                kept_partitions(parts@, keep@).len() as int,
                config.cap() as int,
            ) && run.handed_out() == 0 && run.recorded().len() == 0 && run.advances() == has_cursor
                && run.pause() == config.sleep() && run.pause_nanos() == nanos_in(config.sleep()) && run.job()
                == config.job()),
    {
        let ghost all = parts@;
        let ghost flags = keep@;
        // Keep the flagged partitions, in order.
        let mut rest = parts;
        let mut rest_keep = keep;
        let mut rev: Vec<Partition<K>> = Vec::new();
        while rest.len() > 0
            invariant
                rest.len() == rest_keep.len(),
                rest@.len() <= all.len(),
                all.len() == flags.len(),
                rest@ == all.take(rest@.len() as int),
                rest_keep@ == flags.take(rest@.len() as int),
                kept_partitions(all, flags) == kept_partitions(rest@, rest_keep@) + rev@.reverse(),
            decreases rest.len(),
        {
            let ghost before = rest@;
            let ghost before_keep = rest_keep@;
            let p = rest.pop().unwrap();
            let k = rest_keep.pop().unwrap();
            proof {
                assert(before.drop_last() =~= rest@);
                assert(before_keep.take(before.len() - 1) =~= rest_keep@);
                assert(before.last() == p);
                assert(before_keep[before.len() - 1] == k);
                assert(rest@ =~= all.take(rest@.len() as int));
                assert(rest_keep@ =~= flags.take(rest@.len() as int));
            }
            if k {
                let ghost r0 = rev@;
                rev.push(p);
                assert(rev@.reverse() =~= seq![p] + r0.reverse());
                assert(kept_partitions(rest@, rest_keep@).push(p) + r0.reverse() =~= kept_partitions(rest@, rest_keep@) + rev@.reverse());
            }
        }
        assert(kept_partitions(rest@, rest_keep@) =~= Seq::<Partition<K>>::empty());
        assert(rev@.reverse() =~= kept_partitions(all, flags));
        let ghost kept = kept_partitions(all, flags);
        if rev.len() == 0 {
            return ChunkPlan::Finished(empty_summary(&config.job_name));
        }
        // Cap: drop the partitions past the cap (they sit at the front of `rev`).
        let max = config.max_partitions_per_execution;
        let deferred = max > 0 && rev.len() > max;
        if deferred {
            let excess = rev.len() - max;
            let ghost whole = rev@;
            let tail = rev.split_off(excess);
            proof {
                assert(tail@ == whole.subrange(excess as int, whole.len() as int));
                assert forall|i: int| 0 <= i < max implies #[trigger] tail@.reverse()[i] == kept[i] by {
                    assert(tail@.reverse()[i] == tail@[max - 1 - i]);
                    assert(tail@[max - 1 - i] == whole[excess + max - 1 - i]);
                    assert(whole.reverse()[i] == whole[whole.len() - 1 - i]);
                }
                assert(tail@.reverse() =~= kept.take(max as int));
            }
            rev = tail;
        }
        let count = rev.len();
        let summary = empty_summary(&config.job_name);
        let run = ChunkRun {
            pending: rev,
            count,
            handed_out: 0,
            sleep: config.partition_sleep.clone(),
            sleep_nanos: duration_nanos(&config.partition_sleep),
            advances: has_cursor,
            deferred,
            summary,
            planned: Ghost(planned_partitions(kept, max as int)),
        };
        proof {
            assert(run.planned@.skip(0) =~= run.planned@);
        }
        ChunkPlan::Run(run)
    }

    /// Hands out the next planned partition, or `None` when all have been.
    pub fn next_partition(&mut self) -> (r: Option<Partition<K>>)
        requires
            old(self).wf(),
            old(self).recorded().len() == old(self).handed_out(),
        ensures
            final(self).wf(),
            final(self).planned() == old(self).planned(),
            final(self).recorded() == old(self).recorded(),
            final(self).advances() == old(self).advances(),
            final(self).is_deferred() == old(self).is_deferred(),
            final(self).pause() == old(self).pause(),
            final(self).pause_nanos() == old(self).pause_nanos(),
            final(self).job() == old(self).job(),
            old(self).handed_out() < old(self).planned().len() ==> (r == Some(old(self).planned()[old(self).handed_out()])
                && final(self).handed_out() == old(self).handed_out() + 1),
            old(self).handed_out() >= old(self).planned().len() ==> r is None && final(self).handed_out()
                == old(self).handed_out(),
    {
        if self.handed_out < self.count {
            let ghost before = self.pending@;
            assert(self.pending@.reverse().len() == self.pending@.len());
            assert(self.pending@.len() > 0);
            let p = self.pending.pop().unwrap();
            proof {
                let k = self.handed_out as int;
                let rest = self.planned@.skip(k);
                assert(before == self.pending@.push(p));
                assert(before.reverse() =~= seq![p] + self.pending@.reverse());
                assert(rest[0] == self.planned@[k]);
                assert(rest.skip(1) =~= self.planned@.skip(k + 1));
                assert((seq![p] + self.pending@.reverse()).skip(1) =~= self.pending@.reverse());
            }
            self.handed_out = self.handed_out + 1;
            Some(p)
        } else {
            None
        }
    }

    /// `true` when recording `pr` keeps every total within `usize`.
    pub fn fits(&self, pr: &PartitionResult<K>) -> (r: bool)
        requires
            self.wf(),
        ensures
            r == (counter_sum(self.recorded(), |x: PartitionResult<K>| x.fetched) + pr.fetched <= usize::MAX
                && counter_sum(self.recorded(), |x: PartitionResult<K>| x.inserted) + pr.inserted <= usize::MAX
                && counter_sum(self.recorded(), |x: PartitionResult<K>| x.updated) + pr.updated <= usize::MAX
                && counter_sum(self.recorded(), |x: PartitionResult<K>| x.skipped) + pr.skipped <= usize::MAX),
    {
        pr.fetched <= usize::MAX - self.summary.total_fetched && pr.inserted <= usize::MAX - self.summary.total_inserted
            && pr.updated <= usize::MAX - self.summary.total_updated && pr.skipped <= usize::MAX
            - self.summary.total_skipped
    }

    /// Records the result of the partition last handed out and says what
    /// follows: the cursor advances after every partition when there is
    /// one; the run pauses after every partition but the last when the
    /// pause is not zero.
    pub fn record(&mut self, pr: PartitionResult<K>) -> (r: AfterPartition)
        requires
            old(self).wf(),
            old(self).handed_out() == old(self).recorded().len() + 1,
            counter_sum(old(self).recorded(), |x: PartitionResult<K>| x.fetched) + pr.fetched <= usize::MAX,
            counter_sum(old(self).recorded(), |x: PartitionResult<K>| x.inserted) + pr.inserted <= usize::MAX,
            counter_sum(old(self).recorded(), |x: PartitionResult<K>| x.updated) + pr.updated <= usize::MAX,
            counter_sum(old(self).recorded(), |x: PartitionResult<K>| x.skipped) + pr.skipped <= usize::MAX,
        ensures
            final(self).wf(),
            final(self).recorded() == old(self).recorded().push(pr),
            final(self).planned() == old(self).planned(),
            final(self).handed_out() == old(self).handed_out(),
            final(self).advances() == old(self).advances(),
            final(self).is_deferred() == old(self).is_deferred(),
            final(self).pause() == old(self).pause(),
            final(self).pause_nanos() == old(self).pause_nanos(),
            final(self).job() == old(self).job(),
            r.advance == old(self).advances(),
            r.sleep == pauses_after(
                old(self).recorded().len() as int,
                old(self).planned().len() as int,
                old(self).pause_nanos(),
                true,
            ),
    {
        let index = self.summary.partitions.len();
        let ghost before = self.summary.partitions@;
        self.summary.total_partitions = self.summary.total_partitions + 1;
        self.summary.total_fetched = self.summary.total_fetched + pr.fetched;
        self.summary.total_inserted = self.summary.total_inserted + pr.inserted;
        self.summary.total_updated = self.summary.total_updated + pr.updated;
        self.summary.total_skipped = self.summary.total_skipped + pr.skipped;
        self.summary.partitions.push(pr);
        proof {
            assert(self.summary.partitions@.drop_last() =~= before);
        }
        let sleep = index + 1 < self.count && self.sleep_nanos != 0;
        AfterPartition { advance: self.advances, sleep }
    }

    /// The execution's summary: the recorded results and their totals, and
    /// whether partitions were left for later.
    pub fn finish(self) -> (r: SyncResult<K>)
        requires
            self.wf(),
        ensures
            r.job_name@ == self.job(),
            totals_match(r, self.recorded()),
            r.deferred == self.is_deferred(),
    {
        let mut summary = self.summary;
        summary.deferred = self.deferred;
        summary
    }
}

} // verus!