use std::time::Duration;

use altair_wf::datasync::chunk::iterate::sleeps_after;
use altair_wf::datasync::chunk::partition::{Partition, PartitionResult};
use altair_wf::datasync::chunk::sync::{check_chunk_config, cursor_flags, ChunkPlan, ChunkRun, ChunkedSyncConfig};
use altair_wf::datasync::job::check_job;
use altair_wf::datasync::mapper::{DetailedMapper, IdentityMapper, RecordMapper};
use altair_wf::datasync::runner::{fetch_activity, map_activity, pass_continues, pass_result, write_activity};
use altair_wf::datasync::sink::WriteResult;
use altair_wf::error::Error;

#[test]
fn record_mapper_name_accessor() {
    let m: RecordMapper<i32, i32, _, std::io::Error> = RecordMapper::new("doubler", |x: &i32| Ok(x * 2));
    assert_eq!(m.name(), "doubler");
}

#[test]
fn record_mapper_collects_skip_reasons() {
    let m = RecordMapper::new("doubler", |x: &i32| -> Result<i32, std::io::Error> {
        if *x % 2 == 0 {
            Ok(x * 2)
        } else {
            Err(std::io::Error::other(format!("odd value {x}")))
        }
    });
    let detail = m.map_detailed(vec![1, 2, 3, 4]);
    assert_eq!(detail.records, vec![4, 8]);
    assert_eq!(detail.skipped, 2);
    assert_eq!(detail.skip_reasons, vec!["record 0: odd value 1".to_string(), "record 2: odd value 3".to_string()]);
}

#[test]
fn record_mapper_happy_path_keeps_order() {
    let m = RecordMapper::new("doubler", |x: &i32| -> Result<i32, std::io::Error> { Ok(x * 2) });
    let detail = m.map_detailed(vec![1, 2, 3]);
    assert_eq!(detail.records, vec![2, 4, 6]);
    assert_eq!(detail.skipped, 0);
    assert!(detail.skip_reasons.is_empty());
}

#[test]
fn identity_mapper_passes_records_through() {
    let m: IdentityMapper<i32> = IdentityMapper::new();
    assert_eq!(m.map_records(vec![1, 2, 3]), vec![1, 2, 3]);
}

#[test]
fn write_results_add_field_by_field() {
    let mut a = WriteResult { inserted: 1, updated: 2, skipped: 3 };
    a.add(WriteResult { inserted: 10, updated: 20, skipped: 30 });
    assert_eq!(a, WriteResult { inserted: 11, updated: 22, skipped: 33 });
    assert_eq!(a.total(), 66);
    assert_eq!(WriteResult::default().total(), 0);
}

#[test]
fn job_checks_come_in_order() {
    let minute = Duration::from_secs(60).as_nanos();
    let msg = |r: Result<(u8, u8, u8), Error>| match r {
        Err(Error::InvalidInput(m)) => m,
        other => panic!("expected InvalidInput, got {other:?}"),
    };
    assert_eq!(msg(check_job(" ", Some(1), Some(2), Some(3), minute)), "job name is required");
    assert_eq!(msg(check_job("j", None, Some(2), Some(3), minute)), "source is required");
    assert_eq!(msg(check_job("j", Some(1), None, Some(3), minute)), "mapper is required");
    assert_eq!(msg(check_job("j", Some(1), Some(2), None, minute)), "sink is required");
    assert_eq!(msg(check_job("j", Some(1), Some(2), Some(3), 0)), "schedule must be > 0");
    assert_eq!(check_job("j", Some(1), Some(2), Some(3), minute).unwrap(), (1, 2, 3));
}

#[test]
fn runner_names_and_short_circuit() {
    assert_eq!(fetch_activity("vec"), "source vec: fetch");
    assert_eq!(map_activity(), "mapper: map");
    assert_eq!(write_activity("count"), "sink count: write");
    assert!(!pass_continues(0));
    assert!(pass_continues(3));
    let r = pass_result(0, None, Duration::from_millis(2));
    assert_eq!(r.total_fetched, 0);
    assert_eq!(r.write_result, WriteResult::default());
    let w = WriteResult { inserted: 3, updated: 0, skipped: 0 };
    let r = pass_result(3, Some(w), Duration::from_millis(2));
    assert_eq!(r.write_result.inserted, 3);
}

fn pr(start: i64, end: i64, fetched: usize, inserted: usize) -> PartitionResult<i64> {
    PartitionResult { start, end, fetched, inserted, updated: 0, skipped: 0 }
}

/// Drives a chunked sync over `parts`, with the cursor at `cursor` when
/// there is one; returns the summary, the cursor advances and the number
/// of pauses.
fn drive(
    config: ChunkedSyncConfig,
    parts: Vec<Partition<i64>>,
    cursor: Option<Option<i64>>,
) -> Result<(altair_wf::datasync::chunk::partition::SyncResult<i64>, Vec<i64>, usize), Error> {
    check_chunk_config(&config, cursor.is_some())?;
    let stored: Option<i64> = cursor.flatten();
    let keep = cursor_flags(&parts, &stored, &|start: &i64, c: &i64| start < c);
    let mut run = match ChunkRun::begin(&config, cursor.is_some(), parts, keep) {
        ChunkPlan::Finished(s) => return Ok((s, vec![], 0)),
        ChunkPlan::Run(run) => run,
    };
    let mut advanced = Vec::new();
    let mut sleeps = 0;
    while let Some(p) = run.next_partition() {
        let end = p.end;
        let result = pr(p.start, p.end, 10, 10);
        assert!(run.fits(&result));
        let after = run.record(result);
        if after.advance {
            advanced.push(end);
        }
        if after.sleep {
            sleeps += 1;
        }
    }
    Ok((run.finish(), advanced, sleeps))
}

#[test]
fn chunked_run_without_cursor_visits_every_partition() {
    let parts = vec![Partition::new(0_i64, 1), Partition::new(1, 2)];
    let (s, advanced, sleeps) = drive(ChunkedSyncConfig::new("j"), parts, None).unwrap();
    assert_eq!(s.job_name, "j");
    assert_eq!(s.total_partitions, 2);
    assert_eq!(s.total_fetched, 20);
    assert_eq!(s.total_inserted, 20);
    assert!(!s.deferred);
    assert!(advanced.is_empty());
    assert_eq!(sleeps, 0);
}

#[test]
fn chunked_run_with_nothing_listed_is_empty() {
    let (s, _, _) = drive(ChunkedSyncConfig::new("j"), vec![], None).unwrap();
    assert_eq!(s.total_partitions, 0);
    assert!(s.partitions.is_empty());
}

#[test]
fn chunked_run_cursor_skips_processed_and_is_inclusive() {
    let parts = vec![Partition::new(0_i64, 10), Partition::new(10, 20), Partition::new(20, 30)];
    let (s, advanced, _) = drive(ChunkedSyncConfig::new("j"), parts, Some(Some(10))).unwrap();
    assert_eq!(s.total_partitions, 2);
    assert_eq!(s.partitions[0].start, 10);
    assert_eq!(advanced, vec![20, 30]);
    let parts = vec![Partition::new(0_i64, 10)];
    let (s, advanced, _) = drive(ChunkedSyncConfig::new("j"), parts, Some(Some(30))).unwrap();
    assert_eq!(s.total_partitions, 0);
    assert!(advanced.is_empty());
}

#[test]
fn chunked_run_cap_truncates_and_defers() {
    let parts: Vec<_> = (0..5).map(|i| Partition::new(i * 10, i * 10 + 10)).collect();
    let config = ChunkedSyncConfig::new("j").max_partitions_per_execution(2);
    let (s, advanced, _) = drive(config, parts, Some(None)).unwrap();
    assert_eq!(s.total_partitions, 2);
    assert!(s.deferred);
    assert_eq!(advanced, vec![10, 20]);
}

#[test]
fn chunked_run_cap_without_cursor_rejected() {
    let config = ChunkedSyncConfig::new("j").max_partitions_per_execution(2);
    match drive(config, vec![Partition::new(0_i64, 1)], None) {
        Err(Error::InvalidInput(m)) => assert!(m.starts_with("max_partitions_per_execution requires a cursor")),
        other => panic!("expected InvalidInput, got {other:?}"),
    }
}

#[test]
fn chunked_run_pauses_between_partitions_only() {
    let parts: Vec<_> = (0..4).map(|i| Partition::new(i, i + 1)).collect();
    let config = ChunkedSyncConfig::new("j").partition_sleep(Duration::from_millis(1));
    let (_, _, sleeps) = drive(config, parts, None).unwrap();
    assert_eq!(sleeps, 3);
}

#[test]
fn iteration_sleeps_between_but_not_after_last() {
    let d = Duration::from_millis(1);
    let pauses: Vec<bool> = (0..3).map(|i| sleeps_after(i, 3, &d, true)).collect();
    assert_eq!(pauses, vec![true, true, false]);
    assert!(!sleeps_after(0, 3, &Duration::ZERO, true));
    assert!(!sleeps_after(0, 3, &d, false));
}

#[test]
fn cursor_flags_keep_partitions_at_or_after_the_cursor() {
    let parts = vec![Partition::new(0_i64, 10), Partition::new(10, 20), Partition::new(20, 30)];
    let before = |start: &i64, c: &i64| start < c;
    assert_eq!(cursor_flags(&parts, &Some(10), &before), vec![false, true, true]);
    assert_eq!(cursor_flags(&parts, &None, &before), vec![true, true, true]);
}
