//! Merging batches into the accumulated state and flushing it to a table.

use std::collections::HashMap;

use roaring::RoaringBitmap;
use sui_kvstore::bigtable::flush::FlushAction;
use sui_kvstore::bigtable::flush::FlushError;
use sui_kvstore::bigtable::rows::Entry;
use sui_kvstore::bigtable::rows::FetchedRow;
use sui_kvstore::bigtable::store::CommitterWatermark;
use sui_kvstore::handlers::bitmap::accumulated::AccumulatedState;
use sui_kvstore::handlers::bitmap::accumulated::ChunkResult;
use sui_kvstore::handlers::bitmap::accumulated::FlushEvent;
use sui_kvstore::handlers::bitmap::accumulated::WriteOutcome;
use sui_kvstore::handlers::bitmap::batch::BitmapIndexBatch;
use sui_kvstore::handlers::bitmap::batch::BitmapIndexValue;
use sui_kvstore::handlers::bitmap::layout::BitmapTable;
use sui_kvstore::handlers::bitmap::TransactionBitmapProcessor;

const COL: &str = "b";
const BUCKET_SIZE: u64 = 1000;
const TEST_FLUSH_WRITE_CHUNK_SIZE: usize = 100;
const TEST_FLUSH_WRITE_CONCURRENCY: usize = 4;

type State = AccumulatedState<TransactionBitmapProcessor>;

/// A table that keeps one version of each cell, the one with the latest timestamp.
#[derive(Default)]
struct Table {
    cells: HashMap<Vec<u8>, (u64, Vec<u8>)>,
    reads: usize,
    writes: usize,
}

impl Table {
    fn put(&mut self, row_key: &[u8], value: Vec<u8>, timestamp_ms: u64) {
        let newer = match self.cells.get(row_key) {
            Some((stored, _)) => *stored <= timestamp_ms,
            None => true,
        };
        if newer {
            self.cells.insert(row_key.to_vec(), (timestamp_ms, value));
        }
    }

    fn write(&mut self, entries: &[Entry]) {
        for entry in entries {
            assert_eq!(entry.column, COL);
            self.writes += 1;
            self.put(&entry.row_key, entry.value.clone(), entry.timestamp_ms);
        }
    }

    fn read(&mut self, keys: &[Vec<u8>]) -> Vec<FetchedRow> {
        self.reads += keys.len();
        keys.iter()
            .filter_map(|key| {
                self.cells.get(key).map(|(_, value)| FetchedRow {
                    row_key: key.clone(),
                    cells: vec![
                        (b"other".to_vec(), vec![0xFF]),
                        (COL.as_bytes().to_vec(), value.clone()),
                    ],
                })
            })
            .collect()
    }

    fn stored(&self, row_key: &[u8]) -> Option<RoaringBitmap> {
        let (_, bytes) = self.cells.get(row_key)?;
        Some(RoaringBitmap::deserialize_from(bytes.as_slice()).unwrap())
    }

    fn timestamp(&self, row_key: &[u8]) -> Option<u64> {
        self.cells.get(row_key).map(|(timestamp_ms, _)| *timestamp_ms)
    }
}

fn table() -> BitmapTable {
    BitmapTable {
        name: "transaction_bitmap_index",
        column: COL,
        bucket_size: BUCKET_SIZE,
    }
}

fn accumulated(startup_tx_hi: u64) -> State {
    AccumulatedState::for_processor(
        TransactionBitmapProcessor { table: table() },
        startup_tx_hi,
        TEST_FLUSH_WRITE_CHUNK_SIZE,
        TEST_FLUSH_WRITE_CONCURRENCY,
    )
}

fn bitmap(bits: &[u32]) -> RoaringBitmap {
    bits.iter().copied().collect()
}

fn bytes_of(bits: &[u32]) -> Vec<u8> {
    let mut bytes = Vec::new();
    bitmap(bits).serialize_into(&mut bytes).unwrap();
    bytes
}

fn make_batch(values: Vec<BitmapIndexValue>) -> BitmapIndexBatch {
    let mut batch = BitmapIndexBatch::default();
    batch.extend(values);
    batch
}

fn make_values(
    row_key: &[u8],
    bucket_id: u64,
    bits: &[u32],
    max_cp: u64,
    max_ts_ms: u64,
) -> Vec<BitmapIndexValue> {
    vec![BitmapIndexValue {
        row_key: row_key.to_vec(),
        bucket_id,
        bitmap: bitmap(bits),
        max_cp,
        max_ts_ms,
    }]
}

fn watermark(cp: u64, tx_hi: u64, ts_ms: u64) -> CommitterWatermark {
    CommitterWatermark {
        epoch_hi_inclusive: 0,
        checkpoint_hi_inclusive: cp,
        tx_hi,
        timestamp_ms_hi_inclusive: ts_ms,
    }
}

fn keys_of(entries: &[Entry]) -> Vec<Vec<u8>> {
    entries.iter().map(|entry| entry.row_key.clone()).collect()
}

/// Run a flush to its end against a table.
fn flush(state: &mut State, table: &mut Table, watermark: &CommitterWatermark) -> Result<usize, FlushError<String>> {
    let mut action = state.flush(FlushEvent::Start, watermark);
    loop {
        action = match action {
            FlushAction::Load { key_chunks, concurrency } => {
                assert_eq!(concurrency, 10);
                let mut over = None;
                for keys in key_chunks {
                    assert!(!keys.is_empty() && keys.len() <= 100);
                    let fetched = Ok(table.read(&keys));
                    match state.flush(FlushEvent::Loaded { keys, fetched }, watermark) {
                        FlushAction::Wait => {}
                        other => over = Some(other),
                    }
                }
                match over {
                    Some(action) => action,
                    None => state.flush(FlushEvent::LoadsDone, watermark),
                }
            }
            FlushAction::Write { entry_count, entry_chunks, concurrency } => {
                assert_eq!(concurrency, TEST_FLUSH_WRITE_CONCURRENCY);
                let mut results = Vec::new();
                for entries in entry_chunks {
                    assert!(!entries.is_empty() && entries.len() <= TEST_FLUSH_WRITE_CHUNK_SIZE);
                    table.write(&entries);
                    results.push(ChunkResult {
                        keys: keys_of(&entries),
                        outcome: WriteOutcome::Written,
                    });
                }
                state.flush(FlushEvent::Written { entry_count, results }, watermark)
            }
            FlushAction::Done(result) => return result,
            FlushAction::Wait => unreachable!(),
        };
    }
}

#[test]
fn merge_and_flush_writes_bits() {
    let mut table = Table::default();
    let mut state = accumulated(0);

    let row_key = b"v1#dim#0000000000";
    state.merge_batch(&make_batch(make_values(row_key, 0, &[0, 5, 99], 0, 1000)));

    flush(&mut state, &mut table, &watermark(0, 3, 1000)).unwrap();

    let bm = table.stored(row_key).unwrap();
    assert!(bm.contains(0));
    assert!(bm.contains(5));
    assert!(bm.contains(99));
    assert_eq!(bm.len(), 3);
}

#[test]
fn multiple_batches_merge_before_flush() {
    let mut table = Table::default();
    let mut state = accumulated(0);

    let row_key = b"v1#dim#0000000000";
    state.merge_batch(&make_batch(make_values(row_key, 0, &[5], 1, 2000)));
    state.merge_batch(&make_batch(make_values(row_key, 0, &[1], 0, 1000)));

    flush(&mut state, &mut table, &watermark(1, 6, 2000)).unwrap();

    let bm = table.stored(row_key).unwrap();
    assert!(bm.contains(1));
    assert!(bm.contains(5));
    assert_eq!(bm.len(), 2);
    // The later checkpoint dates the cell, though the earlier one came last.
    assert_eq!(table.timestamp(row_key), Some(2000));
}

#[test]
fn accumulated_incremental_flush_supersedes_with_growing_set() {
    let mut table = Table::default();
    let mut state = accumulated(0);

    let row_key = b"v1#dim#0000000000";

    state.merge_batch(&make_batch(make_values(row_key, 0, &[10], 0, 1000)));
    flush(&mut state, &mut table, &watermark(0, 3, 1000)).unwrap();
    assert_eq!(table.stored(row_key).unwrap().len(), 1);

    state.merge_batch(&make_batch(make_values(row_key, 0, &[20], 1, 2000)));
    flush(&mut state, &mut table, &watermark(1, 6, 2000)).unwrap();

    let bm = table.stored(row_key).unwrap();
    assert_eq!(bm.len(), 2);
    assert!(bm.contains(10));
    assert!(bm.contains(20));
}

#[test]
fn accumulated_repeat_flush_is_noop_when_nothing_dirty() {
    let mut table = Table::default();
    let mut state = accumulated(0);

    let row_key = b"v1#dim#0000000000";
    state.merge_batch(&make_batch(make_values(row_key, 0, &[0, 5], 0, 1000)));

    assert_eq!(flush(&mut state, &mut table, &watermark(0, 3, 1000)).unwrap(), 1);
    let first = table.stored(row_key).unwrap();
    assert_eq!(first.len(), 2);

    assert_eq!(flush(&mut state, &mut table, &watermark(0, 3, 1000)).unwrap(), 0);
    let second = table.stored(row_key).unwrap();
    assert_eq!(second.len(), 2);
    assert_eq!(table.writes, 1);
}

#[test]
fn accumulated_checkpoint_spans_two_buckets_evicts_sealed_one() {
    let mut table = Table::default();
    let mut state = accumulated(0);

    let bucket_size = BUCKET_SIZE;
    let row_lo = b"v1#dim#0000000000";
    let row_hi = b"v1#dim#0000000001";
    let tx_hi_excl = bucket_size + 1;

    let values = vec![
        BitmapIndexValue {
            row_key: row_lo.to_vec(),
            bucket_id: 0,
            bitmap: bitmap(&[(bucket_size - 1) as u32]),
            max_cp: 0,
            max_ts_ms: 1000,
        },
        BitmapIndexValue {
            row_key: row_hi.to_vec(),
            bucket_id: 1,
            bitmap: bitmap(&[0]),
            max_cp: 0,
            max_ts_ms: 1000,
        },
    ];

    state.merge_batch(&make_batch(values));
    flush(&mut state, &mut table, &watermark(0, tx_hi_excl, 1000)).unwrap();

    assert_eq!(table.stored(row_lo).unwrap().len(), 1);
    assert_eq!(table.stored(row_hi).unwrap().len(), 1);

    assert!(
        !state.contains_row(row_lo),
        "bucket 0 should be evicted (sealed and clean)"
    );
    assert!(
        state.contains_row(row_hi),
        "bucket 1 should remain (not yet sealed)"
    );
}

#[test]
fn accumulated_restart_loads_existing_bitmap_from_db() {
    let mut table = Table::default();
    let mut state = accumulated(10);

    let row_key = b"v1#dim#0000000000";
    table.put(row_key, bytes_of(&[1, 5]), 500);

    state.merge_batch(&make_batch(make_values(row_key, 0, &[10], 5, 2000)));
    flush(&mut state, &mut table, &watermark(5, 18, 2000)).unwrap();

    let bm = table.stored(row_key).unwrap();
    assert!(bm.contains(1), "pre-restart bit 1 lost");
    assert!(bm.contains(5), "pre-restart bit 5 lost");
    assert!(bm.contains(10), "new bit 10 missing");
    assert_eq!(bm.len(), 3);
}

#[test]
fn accumulated_straddler_row_with_no_db_state_still_writes_correctly() {
    let mut table = Table::default();
    let mut state = accumulated(10);

    let row_key = b"v1#dim#0000000000";
    state.merge_batch(&make_batch(make_values(row_key, 0, &[7], 5, 2000)));
    flush(&mut state, &mut table, &watermark(5, 18, 2000)).unwrap();

    let bm = table.stored(row_key).unwrap();
    assert_eq!(bm.len(), 1);
    assert!(bm.contains(7));
}

#[test]
fn accumulated_second_flush_does_not_reread_db() {
    let mut table = Table::default();
    let mut state = accumulated(10);

    let row_key = b"v1#dim#0000000000";
    table.put(row_key, bytes_of(&[1, 5]), 500);

    state.merge_batch(&make_batch(make_values(row_key, 0, &[10], 5, 2000)));
    flush(&mut state, &mut table, &watermark(5, 18, 2000)).unwrap();

    table.put(row_key, bytes_of(&[99]), 3000);

    state.merge_batch(&make_batch(make_values(row_key, 0, &[20], 6, 4000)));
    flush(&mut state, &mut table, &watermark(6, 20, 4000)).unwrap();

    let bm = table.stored(row_key).unwrap();
    assert!(bm.contains(1));
    assert!(bm.contains(5));
    assert!(bm.contains(10));
    assert!(bm.contains(20));
    assert!(
        !bm.contains(99),
        "DB was re-read between flushes — bit 99 leaked in"
    );
    assert_eq!(bm.len(), 4);
    assert_eq!(table.reads, 1);
}

#[test]
fn merging_a_batch_again_changes_nothing() {
    let mut table = Table::default();
    let mut state = accumulated(0);
    let batch = make_batch(make_values(b"row", 0, &[1, 2], 3, 30));
    state.merge_batch(&batch);
    assert_eq!(flush(&mut state, &mut table, &watermark(3, 9, 30)).unwrap(), 1);
    // A retried commit merges the same batch; what was written is not dirty again.
    state.merge_batch(&batch);
    assert_eq!(flush(&mut state, &mut table, &watermark(3, 9, 30)).unwrap(), 0);
}

#[test]
fn a_row_of_checkpoint_zero_is_dated_by_it() {
    let mut table = Table::default();
    let mut state = accumulated(0);
    state.merge_batch(&make_batch(make_values(b"row", 0, &[1], 0, 1000)));
    flush(&mut state, &mut table, &watermark(0, 9, 1000)).unwrap();
    assert_eq!(table.timestamp(b"row"), Some(1000));
}

#[test]
fn only_straddling_buckets_are_loaded() {
    let mut table = Table::default();
    // The watermark is in the middle of bucket 1.
    let mut state = accumulated(BUCKET_SIZE + 500);
    table.put(b"one", bytes_of(&[3]), 1);
    table.put(b"two", bytes_of(&[3]), 1);
    let mut values = make_values(b"one", 1, &[4], 7, 70);
    values.extend(make_values(b"two", 2, &[4], 7, 70));
    state.merge_batch(&make_batch(values));
    flush(&mut state, &mut table, &watermark(7, BUCKET_SIZE + 600, 70)).unwrap();
    assert_eq!(table.reads, 1);
    assert_eq!(table.stored(b"one").unwrap(), bitmap(&[3, 4]));
    assert_eq!(table.stored(b"two").unwrap(), bitmap(&[4]));
}

#[test]
fn entries_and_loads_come_in_chunks() {
    let mut state = accumulated(1);
    let mut values = Vec::new();
    for i in 0..250u32 {
        values.extend(make_values(format!("row{i:03}").as_bytes(), 0, &[i], 1, 10));
    }
    state.merge_batch(&make_batch(values));
    let wm = watermark(1, 2, 10);
    let action: FlushAction<usize, String> = state.flush(FlushEvent::Start, &wm);
    let FlushAction::Load { key_chunks, .. } = action else {
        panic!("rows of the straddling bucket are loaded first");
    };
    let sizes: Vec<usize> = key_chunks.iter().map(|chunk| chunk.len()).collect();
    assert_eq!(sizes, vec![100, 100, 50]);
    for keys in key_chunks {
        let fetched: Result<Vec<FetchedRow>, String> = Ok(Vec::new());
        assert!(matches!(
            state.flush(FlushEvent::Loaded { keys, fetched }, &wm),
            FlushAction::Wait
        ));
    }
    let action: FlushAction<usize, String> = state.flush(FlushEvent::LoadsDone, &wm);
    let FlushAction::Write { entry_count, entry_chunks, .. } = action else {
        panic!("then the rows are written");
    };
    assert_eq!(entry_count, 250);
    let sizes: Vec<usize> = entry_chunks.iter().map(|chunk| chunk.len()).collect();
    assert_eq!(sizes, vec![100, 100, 50]);
}

#[test]
fn a_failed_load_ends_the_flush_and_is_tried_again() {
    let mut table = Table::default();
    let mut state = accumulated(10);
    table.put(b"row", bytes_of(&[1]), 1);
    state.merge_batch(&make_batch(make_values(b"row", 0, &[2], 5, 50)));
    let wm = watermark(5, 20, 50);
    let action: FlushAction<usize, String> = state.flush(FlushEvent::Start, &wm);
    assert!(matches!(action, FlushAction::Load { .. }));
    let action = state.flush(
        FlushEvent::Loaded {
            keys: vec![b"row".to_vec()],
            fetched: Err("unavailable".to_string()),
        },
        &wm,
    );
    assert!(matches!(action, FlushAction::Done(Err(FlushError::Load(e))) if e == "unavailable"));
    // The next flush loads the row after all.
    flush(&mut state, &mut table, &wm).unwrap();
    assert_eq!(table.stored(b"row").unwrap(), bitmap(&[1, 2]));
}

#[test]
fn a_corrupt_cell_ends_the_flush() {
    let mut table = Table::default();
    let mut state = accumulated(10);
    table.put(b"row", b"no bitmap".to_vec(), 1);
    state.merge_batch(&make_batch(make_values(b"row", 0, &[2], 5, 50)));
    let result = flush(&mut state, &mut table, &watermark(5, 20, 50));
    assert!(matches!(result, Err(FlushError::CorruptBitmap(_))));
}

#[test]
fn failed_writes_stay_dirty_and_the_first_error_is_returned() {
    let mut table = Table::default();
    let mut state = accumulated(0);
    let mut values = Vec::new();
    for key in [b"a", b"b", b"c", b"d"] {
        values.extend(make_values(key, 0, &[1], 1, 10));
    }
    let batch = make_batch(values);
    state.merge_batch(&batch);
    // The watermark seals the bucket of all rows.
    let wm = watermark(1, BUCKET_SIZE, 10);
    let action: FlushAction<usize, String> = state.flush(FlushEvent::Start, &wm);
    assert!(matches!(action, FlushAction::Write { entry_count: 4, .. }));
    let keys = |names: &[&[u8]]| names.iter().map(|name| name.to_vec()).collect::<Vec<_>>();
    let results = vec![
        ChunkResult {
            keys: keys(&[b"a"]),
            outcome: WriteOutcome::Written,
        },
        ChunkResult {
            keys: keys(&[b"b", b"c"]),
            outcome: WriteOutcome::Partial {
                failed_keys: keys(&[b"c"]),
                error: "partial".to_string(),
            },
        },
        ChunkResult {
            keys: keys(&[b"d"]),
            outcome: WriteOutcome::Failed {
                error: "failed".to_string(),
            },
        },
    ];
    let action = state.flush(FlushEvent::Written { entry_count: 4, results }, &wm);
    assert!(matches!(action, FlushAction::Done(Err(FlushError::Write(e))) if e == "partial"));
    // What was written is evicted; what was not stays.
    assert!(!state.contains_row(b"a"));
    assert!(!state.contains_row(b"b"));
    assert!(state.contains_row(b"c"));
    assert!(state.contains_row(b"d"));
    // The retry writes what was not written, and then everything is evicted.
    state.merge_batch(&batch);
    assert_eq!(flush(&mut state, &mut table, &wm).unwrap(), 2);
    assert_eq!(table.stored(b"c").unwrap(), bitmap(&[1]));
    assert_eq!(table.stored(b"d").unwrap(), bitmap(&[1]));
    for key in [b"a", b"b", b"c", b"d"] {
        assert!(!state.contains_row(key));
    }
}

#[test]
fn batches_or_their_values_row_by_row() {
    let mut batch = BitmapIndexBatch::default();
    assert!(batch.is_empty());
    let mut values = make_values(b"row", 4, &[1], 2, 20);
    values.extend(make_values(b"row", 4, &[2], 3, 30));
    values.extend(make_values(b"row", 4, &[3], 1, 10));
    values.extend(make_values(b"other", 5, &[9], 1, 10));
    batch.extend(values);
    assert!(!batch.is_empty());
    assert_eq!(batch.rows().len(), 2);
    let row = batch.rows().get(b"row").unwrap();
    assert_eq!(row.row_key, b"row".to_vec());
    assert_eq!(row.bucket_id, 4);
    assert_eq!(row.bitmap, bitmap(&[1, 2, 3]));
    assert_eq!((row.max_cp, row.max_ts_ms), (3, 30));
}

#[test]
fn settings_are_those_of_the_processor() {
    let state = accumulated(77);
    let settings = state.settings();
    assert_eq!(settings.table, "transaction_bitmap_index");
    assert_eq!(settings.column, COL);
    assert_eq!(settings.startup_tx_hi, 77);
    assert_eq!(settings.flush_write_chunk_size, TEST_FLUSH_WRITE_CHUNK_SIZE);
    assert_eq!(settings.flush_write_concurrency, TEST_FLUSH_WRITE_CONCURRENCY);
}

/// A row of bucket 0 that was written with one bit, and a batch that adds a bit to it
/// and to a row of bucket 1.
fn before_the_seal(table: &mut Table) -> (State, BitmapIndexBatch) {
    let mut state = accumulated(0);
    state.merge_batch(&make_batch(make_values(b"a", 0, &[1], 1, 10)));
    assert_eq!(flush(&mut state, table, &watermark(1, 2, 10)).unwrap(), 1);
    let mut values = make_values(b"a", 0, &[2], 2, 20);
    values.extend(make_values(b"c", 1, &[0], 2, 20));
    (state, make_batch(values))
}

#[test]
fn a_retry_after_a_partial_failure_loses_no_bit() {
    let mut table = Table::default();
    let (mut state, batch) = before_the_seal(&mut table);
    // The watermark seals bucket 0. The flush writes `a` and fails on `c`.
    let wm = watermark(2, BUCKET_SIZE + 1, 20);
    state.merge_batch(&batch);
    let action: FlushAction<usize, String> = state.flush(FlushEvent::Start, &wm);
    let FlushAction::Write { entry_count, entry_chunks, .. } = action else {
        panic!("both rows are dirty");
    };
    assert_eq!(entry_count, 2);
    for entry in entry_chunks.iter().flatten().filter(|entry| entry.row_key == b"a".to_vec()) {
        table.write(std::slice::from_ref(entry));
    }
    let results = vec![ChunkResult {
        keys: vec![b"a".to_vec(), b"c".to_vec()],
        outcome: WriteOutcome::Partial {
            failed_keys: vec![b"c".to_vec()],
            error: "partial".to_string(),
        },
    }];
    let action = state.flush(FlushEvent::Written { entry_count, results }, &wm);
    assert!(matches!(action, FlushAction::Done(Err(FlushError::Write(_)))));
    assert!(!state.contains_row(b"a"));
    assert!(state.contains_row(b"c"));

    state.merge_batch(&batch);
    assert!(state.contains_row(b"a"));
    assert_eq!(flush(&mut state, &mut table, &wm).unwrap(), 1);
    assert_eq!(table.stored(b"a").unwrap(), bitmap(&[1, 2]));
    assert_eq!(table.stored(b"c").unwrap(), bitmap(&[0]));
    assert!(!state.contains_row(b"a"));
    assert!(state.contains_row(b"c"));
}

#[test]
fn a_retry_after_a_failed_watermark_write_converges() {
    let mut table = Table::default();
    let (mut state, batch) = before_the_seal(&mut table);
    let wm = watermark(2, BUCKET_SIZE + 1, 20);
    state.merge_batch(&batch);
    assert_eq!(flush(&mut state, &mut table, &wm).unwrap(), 2);
    assert!(!state.contains_row(b"a"));
    // The whole commit is tried again, as often as it takes.
    for _ in 0..2 {
        state.merge_batch(&batch);
        assert!(state.contains_row(b"a"));
        assert_eq!(flush(&mut state, &mut table, &wm).unwrap(), 0);
        assert!(!state.contains_row(b"a"));
        assert!(state.contains_row(b"c"));
        assert_eq!(table.stored(b"a").unwrap(), bitmap(&[1, 2]));
    }
    // Commits go on.
    state.merge_batch(&make_batch(make_values(b"c", 1, &[7], 3, 30)));
    assert_eq!(flush(&mut state, &mut table, &watermark(3, BUCKET_SIZE + 9, 30)).unwrap(), 1);
    assert_eq!(table.stored(b"a").unwrap(), bitmap(&[1, 2]));
    assert_eq!(table.stored(b"c").unwrap(), bitmap(&[0, 7]));
}

#[test]
fn a_row_that_is_taken_up_again_is_not_loaded_again() {
    let mut table = Table::default();
    let mut state = accumulated(10);
    table.put(b"row", bytes_of(&[1]), 5);
    let batch = make_batch(make_values(b"row", 0, &[2], 2, 20));
    let wm = watermark(2, BUCKET_SIZE, 20);
    state.merge_batch(&batch);
    assert_eq!(flush(&mut state, &mut table, &wm).unwrap(), 1);
    state.merge_batch(&batch);
    assert_eq!(flush(&mut state, &mut table, &wm).unwrap(), 0);
    assert_eq!(table.reads, 1);
    assert_eq!(table.stored(b"row").unwrap(), bitmap(&[1, 2]));
}

#[test]
fn a_flush_with_nothing_dirty_evicts_sealed_rows() {
    let mut table = Table::default();
    let mut state = accumulated(0);
    let mut values = make_values(b"low", 0, &[1], 1, 10);
    values.extend(make_values(b"high", 1, &[1], 1, 10));
    state.merge_batch(&make_batch(values));
    assert_eq!(flush(&mut state, &mut table, &watermark(1, BUCKET_SIZE - 1, 10)).unwrap(), 2);
    assert!(state.contains_row(b"low"));

    assert_eq!(flush(&mut state, &mut table, &watermark(2, BUCKET_SIZE, 20)).unwrap(), 0);
    assert!(!state.contains_row(b"low"));
    assert!(state.contains_row(b"high"));
    assert_eq!(table.writes, 2);
}
