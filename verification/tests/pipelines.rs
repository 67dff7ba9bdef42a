//! Processors, the handler, the store and its watermarks.

use roaring::RoaringBitmap;
use sui_kvstore::bigtable::flush::FlushAction;
use sui_kvstore::bigtable::store::watermark::InitWatermark;
use sui_kvstore::bigtable::store::watermark::SetWatermark;
use sui_kvstore::bigtable::store::watermark::StartupTxHis;
use sui_kvstore::bigtable::store::BigTableStore;
use sui_kvstore::bigtable::store::BitmapIndexProcessor;
use sui_kvstore::bigtable::store::CommitterWatermark;
use sui_kvstore::dimensions::Event;
use sui_kvstore::dimensions::ExecutedTransaction;
use sui_kvstore::dimensions::StructTag;
use sui_kvstore::handlers::bitmap::accumulated::ChunkResult;
use sui_kvstore::handlers::bitmap::accumulated::FlushEvent;
use sui_kvstore::handlers::bitmap::accumulated::WriteOutcome;
use sui_kvstore::handlers::bitmap::batch::BitmapIndexBatch;
use sui_kvstore::handlers::bitmap::handler::BitmapIndexHandler;
use sui_kvstore::handlers::bitmap::handler::SequentialLayer;
use sui_kvstore::handlers::bitmap::layout::BitmapTable;
use sui_kvstore::handlers::bitmap::layout::Checkpoint;
use sui_kvstore::handlers::bitmap::layout::Processor;
use sui_kvstore::handlers::bitmap::EventBitmapProcessor;
use sui_kvstore::handlers::bitmap::TransactionBitmapProcessor;

const PIPELINE: &str = "pipeline";
const EPOCH_HI: u64 = 7;
const CHECKPOINT_HI: u64 = 200;
const TX_HI: u64 = 42;
const TIMESTAMP_MS_HI: u64 = 99;

fn table(bucket_size: u64) -> BitmapTable {
    BitmapTable {
        name: "index",
        column: "b",
        bucket_size,
    }
}

fn transactions(bucket_size: u64) -> TransactionBitmapProcessor {
    TransactionBitmapProcessor {
        table: table(bucket_size),
    }
}

fn events(bucket_size: u64, max_events_per_tx: u32) -> EventBitmapProcessor {
    EventBitmapProcessor {
        table: table(bucket_size),
        max_events_per_tx,
    }
}

fn transaction(sender: u8, event_count: usize) -> ExecutedTransaction {
    ExecutedTransaction {
        sender: [sender; 32],
        changed_object_owners: vec![],
        changed_object_ids: vec![],
        move_calls: vec![],
        events: (0..event_count)
            .map(|_| Event {
                package_id: [0x10; 32],
                transaction_module: "m".to_string(),
                type_: StructTag {
                    address: [0x20; 32],
                    module: "t".to_string(),
                    name: "E".to_string(),
                    type_params_bcs: None,
                },
            })
            .collect(),
    }
}

fn checkpoint(transactions: Vec<ExecutedTransaction>) -> Checkpoint {
    Checkpoint {
        sequence_number: 4,
        network_total_transactions: 12,
        timestamp_ms: 400,
        transactions,
    }
}

fn row_key(dim_key: &Vec<u8>, bucket_id: u64) -> Vec<u8> {
    let mut key = dim_key.clone();
    key.push(b'#');
    key.extend_from_slice(&bucket_id.to_be_bytes());
    key
}

fn sender_key(sender: u8, bucket_id: u64) -> Vec<u8> {
    let mut dim_key = vec![0x01];
    dim_key.extend_from_slice(&[sender; 32]);
    row_key(&dim_key, bucket_id)
}

#[test]
fn transaction_bits_stand_at_their_sequence_numbers() {
    // Transactions 9, 10 and 11, in buckets of ten.
    let cp = checkpoint(vec![transaction(1, 0), transaction(2, 0), transaction(3, 0)]);
    let bits = transactions(10).process(&cp, row_key);
    let seen: Vec<(Vec<u8>, u64, u32)> = bits
        .iter()
        .map(|bit| (bit.row_key.clone(), bit.bucket_id, bit.bit_position))
        .collect();
    assert_eq!(
        seen,
        vec![
            (sender_key(1, 0), 0, 9),
            (sender_key(2, 1), 1, 0),
            (sender_key(3, 1), 1, 1),
        ]
    );
    for bit in bits {
        assert_eq!(bit.checkpoint_seq, 4);
        assert_eq!(bit.tx_hi_exclusive, 12);
        assert_eq!(bit.timestamp_ms, 400);
    }
}

#[test]
fn event_bits_stand_at_their_packed_sequence_numbers() {
    // Transactions 10 and 11, with room for four events each, in buckets of sixteen.
    let cp = checkpoint(vec![transaction(1, 3), transaction(2, 1)]);
    let bits = events(16, 4).process(&cp, row_key);
    // Six dimensions for each of the four events.
    assert_eq!(bits.len(), 24);
    let of_sender: Vec<(Vec<u8>, u64, u32)> = bits
        .iter()
        .filter(|bit| bit.row_key[0] == 0x01)
        .map(|bit| (bit.row_key.clone(), bit.bucket_id, bit.bit_position))
        .collect();
    assert_eq!(
        of_sender,
        vec![
            (sender_key(1, 2), 2, 8),
            (sender_key(1, 2), 2, 9),
            (sender_key(1, 2), 2, 10),
            (sender_key(2, 2), 2, 12),
        ]
    );
}

#[test]
fn buckets_are_sealed_by_the_transactions_past_them() {
    let tx = transactions(10);
    assert_eq!(tx.seal_tx_hi_exclusive(0), 10);
    assert_eq!(tx.seal_tx_hi_exclusive(4), 50);
    assert_eq!(tx.name(), "kvstore_transaction_bitmap_index");
    assert_eq!(tx.table(), "index");
    assert_eq!(tx.column(), "b");

    // A bucket of ten, four positions for each transaction: transaction 2 still
    // reaches into bucket 0, transaction 3 does not.
    let ev = events(10, 4);
    assert_eq!(ev.seal_tx_hi_exclusive(0), 3);
    assert_eq!(ev.seal_tx_hi_exclusive(1), 5);
    assert_eq!(ev.name(), "kvstore_event_bitmap_index");
    assert_eq!(ev.table(), "index");
    assert_eq!(ev.column(), "b");
}

#[test]
fn indexed_bits_convert() {
    let cp = checkpoint(vec![transaction(1, 0)]);
    let bit = transactions(10).process(&cp, row_key).remove(0);
    let value = bit.into_value();
    assert_eq!(value.row_key, sender_key(1, 1));
    assert_eq!((value.bucket_id, value.bit_position), (1, 1));
    assert_eq!((value.checkpoint_seq, value.timestamp_ms), (4, 400));
    let row = transactions(10).process(&cp, row_key).remove(0).into_row();
    assert_eq!(row.row_key, sender_key(1, 1));
    assert_eq!(row.bitmap.iter().collect::<Vec<u32>>(), vec![1]);
    assert_eq!((row.max_cp, row.max_ts_ms), (4, 400));
}

fn watermark() -> CommitterWatermark {
    CommitterWatermark {
        epoch_hi_inclusive: EPOCH_HI,
        checkpoint_hi_inclusive: CHECKPOINT_HI,
        tx_hi: TX_HI,
        timestamp_ms_hi_inclusive: TIMESTAMP_MS_HI,
    }
}

#[test]
fn test_init_watermark_returns_existing_on_conflict() {
    let mut store = BigTableStore::new("client");
    let mut conn = store.connect();

    let Ok(SetWatermark::Write(persisted)) = conn.set_committer_watermark(PIPELINE, watermark()) else {
        panic!("outside of a transaction the watermark is written at once");
    };

    // init must surface the existing committer watermark regardless of the input.
    let init = conn
        .init_watermark(PIPELINE, Some(0), Some(persisted))
        .unwrap();
    assert_eq!(init.checkpoint_hi_inclusive, Some(CHECKPOINT_HI));
    // BigTable has no trailing-edge / reader watermark concept.
    assert_eq!(init.reader_lo, None);
}

#[test]
fn startup_tx_hi_is_what_init_saw() {
    let mut store = BigTableStore::new("client");
    {
        let mut conn = store.connect();
        assert_eq!(conn.startup_tx_hi(PIPELINE), 0);
        conn.init_watermark(PIPELINE, None, Some(watermark()));
        assert_eq!(conn.init_watermark("fresh", None, None), None);
    }
    // Other connections see it too.
    let mut conn = store.connect();
    assert_eq!(conn.startup_tx_hi(PIPELINE), TX_HI);
    assert_eq!(conn.startup_tx_hi("fresh"), 0);
    assert_eq!(conn.startup_tx_hi("unknown"), 0);
    assert_eq!(*conn.client(), "client");
    *conn.client() = "other";
    assert_eq!(*conn.client(), "other");

    let mut tx_his = StartupTxHis::new();
    let init = tx_his.init_watermark(PIPELINE, Some(watermark()));
    assert_eq!(
        init,
        Some(InitWatermark {
            checkpoint_hi_inclusive: Some(CHECKPOINT_HI),
            reader_lo: None
        })
    );
    assert_eq!(tx_his.startup_tx_hi(PIPELINE), TX_HI);
}

#[test]
fn a_transaction_stages_its_watermark() {
    let mut store = BigTableStore::new(());
    let mut conn = store.begin_transaction();
    assert_eq!(conn.pending_watermark(), None);
    assert!(matches!(
        conn.set_committer_watermark(PIPELINE, watermark()),
        Ok(SetWatermark::Staged)
    ));
    assert_eq!(conn.pending_watermark(), Some(watermark()));

    // The same pipeline may set it again; another one may not.
    let later = CommitterWatermark {
        tx_hi: TX_HI + 1,
        ..watermark()
    };
    assert!(conn.set_committer_watermark(PIPELINE, later).is_ok());
    let error = conn.set_committer_watermark("other", watermark()).unwrap_err();
    assert_eq!(error.staged, PIPELINE);
    assert_eq!(conn.pending_watermark(), Some(later));

    let (result, persist) = conn.finish_transaction::<u8, String>(Ok(5)).unwrap();
    assert_eq!(result, 5);
    assert_eq!(persist, Some((PIPELINE.to_string(), later)));
    assert_eq!(conn.pending_watermark(), None);
}

#[test]
fn a_failed_transaction_writes_no_watermark() {
    let mut store = BigTableStore::new(());
    let mut conn = store.begin_transaction();
    conn.set_committer_watermark(PIPELINE, watermark()).unwrap();
    let outcome: Result<(), &str> = Err("rollback");
    assert_eq!(conn.finish_transaction(outcome), Err("rollback"));
}

fn handler(config: SequentialLayer) -> BitmapIndexHandler<TransactionBitmapProcessor> {
    BitmapIndexHandler::new(transactions(10), &config, 3, 50)
}

const UNSET: SequentialLayer = SequentialLayer {
    write_concurrency: None,
    max_rows: None,
};

#[test]
fn an_empty_batch_is_committed_at_once() {
    let mut store = BigTableStore::new(());
    let conn = store.begin_transaction();
    let mut handler = handler(UNSET);
    let action: FlushAction<usize, String> = handler.commit(&BitmapIndexBatch::default(), &conn);
    assert!(matches!(action, FlushAction::Done(Ok(0))));
    assert_eq!(handler.table(), None);
}

fn one_batch(handler: &BitmapIndexHandler<TransactionBitmapProcessor>) -> BitmapIndexBatch {
    let mut batch = BitmapIndexBatch::default();
    let cp = checkpoint(vec![transaction(1, 0)]);
    handler.batch(&mut batch, handler.process(&cp, row_key));
    batch
}

#[test]
fn a_commit_merges_and_flushes() {
    let mut store = BigTableStore::new(());
    let mut conn = store.begin_transaction();
    conn.set_committer_watermark("kvstore_transaction_bitmap_index", watermark())
        .unwrap();
    let mut handler = handler(UNSET);
    let batch = one_batch(&handler);
    let action: FlushAction<usize, String> = handler.commit(&batch, &conn);
    assert_eq!(handler.table(), Some("index"));
    let FlushAction::Write { entry_count, entry_chunks, concurrency } = action else {
        panic!("a row of an open bucket is written at once");
    };
    // What the configuration leaves out is the global write concurrency.
    assert_eq!((entry_count, concurrency), (1, 3));
    let entry = &entry_chunks[0][0];
    assert_eq!(entry.row_key, sender_key(1, 1));
    assert_eq!(entry.timestamp_ms, 400);
    let stored = RoaringBitmap::deserialize_from(entry.value.as_slice()).unwrap();
    assert_eq!(stored.iter().collect::<Vec<u32>>(), vec![1]);
    let results = vec![ChunkResult {
        keys: vec![entry.row_key.clone()],
        outcome: WriteOutcome::Written,
    }];
    let action: FlushAction<usize, String> =
        handler.flush(FlushEvent::Written { entry_count, results }, &watermark());
    assert!(matches!(action, FlushAction::Done(Ok(1))));
}

#[test]
fn a_commit_reads_where_its_pipeline_started() {
    let mut store = BigTableStore::new(());
    {
        // Bucket 1 begins at transaction 10, so it straddles the watermark at 11.
        let started = CommitterWatermark {
            tx_hi: 11,
            ..watermark()
        };
        let mut conn = store.connect();
        conn.init_watermark("kvstore_transaction_bitmap_index", None, Some(started));
    }
    let mut conn = store.begin_transaction();
    conn.set_committer_watermark("kvstore_transaction_bitmap_index", watermark())
        .unwrap();
    assert_eq!(handler(UNSET).flush_write_chunk_size(), 50);
    let mut handler = handler(SequentialLayer {
        write_concurrency: Some(8),
        max_rows: Some(1),
    });
    assert_eq!(handler.flush_write_chunk_size(), 1);
    let batch = one_batch(&handler);
    let action: FlushAction<usize, String> = handler.commit(&batch, &conn);
    assert!(matches!(action, FlushAction::Load { .. }));
    let action: FlushAction<usize, String> = handler.flush(FlushEvent::LoadsDone, &watermark());
    assert!(matches!(action, FlushAction::Write { concurrency: 8, .. }));
}

#[test]
fn buckets_can_be_sealed_while_their_end_fits() {
    let txs = transactions(10);
    assert!(txs.can_seal_bucket(0));
    assert!(txs.can_seal_bucket(u64::MAX / 10 - 1));
    assert!(!txs.can_seal_bucket(u64::MAX / 10));
    assert!(!txs.can_seal_bucket(u64::MAX));
    assert!(events(10, 4).can_seal_bucket(u64::MAX / 10 - 1));
    assert!(!events(10, 4).can_seal_bucket(u64::MAX / 10));
    assert!(!events(10, 0).can_seal_bucket(0));
}

#[test]
fn checkpoints_can_be_processed_while_their_positions_fit() {
    let cp = checkpoint(vec![transaction(1, 3)]);
    assert!(transactions(10).can_process_checkpoint(&cp));
    assert!(!transactions(0).can_process_checkpoint(&cp));
    assert!(!transactions(1 << 32).can_process_checkpoint(&cp));
    assert!(events(10, 3).can_process_checkpoint(&cp));
    assert!(!events(10, 2).can_process_checkpoint(&cp));
    assert!(!events(10, 0).can_process_checkpoint(&cp));

    // The total has to count the checkpoint's own transactions.
    let short = Checkpoint {
        network_total_transactions: 0,
        ..checkpoint(vec![transaction(1, 0)])
    };
    assert!(!transactions(10).can_process_checkpoint(&short));
    assert!(!events(10, 3).can_process_checkpoint(&short));

    // The last event of transaction `u64::MAX / 4` is the last that fits.
    let last = Checkpoint {
        network_total_transactions: u64::MAX / 4 + 1,
        ..checkpoint(vec![transaction(1, 4)])
    };
    assert!(events(10, 4).can_process_checkpoint(&last));
    let past = Checkpoint {
        network_total_transactions: u64::MAX / 4 + 2,
        ..checkpoint(vec![transaction(1, 1)])
    };
    assert!(!events(10, 4).can_process_checkpoint(&past));
    assert!(transactions(10).can_process_checkpoint(&past));
}

#[test]
fn only_committer_watermarks_are_kept() {
    let mut store = BigTableStore::new(());
    let conn = store.connect();
    assert!(conn.accepts_chain_id(PIPELINE, [1; 32]));
    assert!(conn.accepts_chain_id(PIPELINE, [2; 32]));
    assert!(!conn.set_reader_watermark(PIPELINE, 1));
    assert_eq!(conn.reader_watermark(PIPELINE), None);
    assert!(!conn.set_pruner_watermark(PIPELINE, 1));
    assert_eq!(conn.pruner_watermark(PIPELINE, 0), None);
}
