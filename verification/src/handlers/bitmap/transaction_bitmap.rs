//! The bitmap index of transactions.
//!
//! There is one bit for each dimension value and transaction that has it. A bit's
//! position is the transaction's sequence number.

use vstd::prelude::*;

use crate::bigtable::store::bitmap_buffer::BufferView;
use crate::bigtable::store::index_batch::MessageView;
use crate::bigtable::store::processor;
use crate::bigtable::store::BitmapIndexProcessor;
use crate::dimensions;
use crate::dimensions::Dimension;
use crate::dimensions::ExecutedTransaction;
use crate::handlers::bitmap::accumulated::AccumulatedView;
use crate::handlers::bitmap::batch::RowView;
use crate::handlers::bitmap::layout;
use crate::handlers::bitmap::layout::BitmapTable;
use crate::handlers::bitmap::layout::Checkpoint;
use crate::handlers::bitmap::layout::IndexedBit;
use crate::handlers::bitmap::layout::Point;
use crate::handlers::bitmap::layout::Processor;

verus! {

/// The name of the pipeline.
pub const TRANSACTION_BITMAP_PIPELINE: &'static str = "kvstore_transaction_bitmap_index";

/// Feeds the index of transactions: one bit for each dimension and transaction.
#[derive(Clone, Copy)]
pub struct TransactionBitmapProcessor {
    pub table: BitmapTable,
}

/// The bits of a transaction: one for each of its dimensions, at its sequence
/// number.
pub open spec fn transaction_bits(bucket_size: u64, tx_seq: int, tx: ExecutedTransaction) -> Seq<Point> {
    dimensions::transaction_dimensions(tx).map_values(
        |dim: Dimension| layout::point_at(bucket_size, tx_seq, dim),
    )
}

/// The bits of consecutive transactions, of which the first has sequence number
/// `tx_lo`.
pub open spec fn transactions_bits(bucket_size: u64, tx_lo: int, txs: Seq<ExecutedTransaction>) -> Seq<Point>
    decreases txs.len(),
{
    if txs.len() == 0 {
        seq![]
    } else {
        transactions_bits(bucket_size, tx_lo, txs.drop_last()) + transaction_bits(
            bucket_size,
            tx_lo + txs.len() - 1,
            txs.last(),
        )
    }
}

impl Processor for TransactionBitmapProcessor {
    open spec fn pipeline(&self) -> Seq<char> {
        TRANSACTION_BITMAP_PIPELINE@
    }

    open spec fn can_process(&self, checkpoint: Checkpoint) -> bool {
        &&& self.table.wf()
        &&& checkpoint.wf()
    }

    /// The bits of the checkpoint's transactions.
    open spec fn points(&self, checkpoint: Checkpoint) -> Seq<Point> {
        transactions_bits(self.table.bucket_size, checkpoint.tx_lo(), checkpoint.transactions@)
    }

    fn name(&self) -> (name: &'static str) {
        TRANSACTION_BITMAP_PIPELINE
    }

    fn can_process_checkpoint(&self, checkpoint: &Checkpoint) -> (can: bool) {
        self.table.is_well_formed() && checkpoint.is_well_formed()
    }

    fn process<F: Fn(&Vec<u8>, u64) -> Vec<u8>>(&self, checkpoint: &Checkpoint, encode_row_key: F) -> (bits:
        Vec<IndexedBit>) {
        // The total counts this checkpoint's own transactions, so this is the first.
        let tx_lo: u64 = checkpoint.network_total_transactions - checkpoint.transactions.len() as u64;
        let mut bits: Vec<IndexedBit> = Vec::new();
        let ghost bucket_size = self.table.bucket_size;
        let ghost txs = checkpoint.transactions@;
        let mut i: usize = 0;
        while i < checkpoint.transactions.len()
            invariant
                i <= checkpoint.transactions.len(),
                self.table.wf(),
                bucket_size == self.table.bucket_size,
                txs == checkpoint.transactions@,
                tx_lo == checkpoint.tx_lo(),
                tx_lo + txs.len() <= u64::MAX,
                forall|key: Vec<u8>, bucket_id: u64| call_requires(encode_row_key, (&key, bucket_id)),
                layout::are_bits_of(
                    bits@,
                    transactions_bits(bucket_size, tx_lo as int, txs.take(i as int)),
                    *checkpoint,
                    encode_row_key,
                ),
            decreases checkpoint.transactions.len() - i,
        {
            let tx_seq: u64 = tx_lo + i as u64;
            let dims = dimensions::extract_transaction_dimensions(&checkpoint.transactions[i]);
            let ghost done = transactions_bits(bucket_size, tx_lo as int, txs.take(i as int));
            let ghost own = transaction_bits(bucket_size, tx_seq as int, txs[i as int]);
            assert(done + own.take(0) =~= done);
            let mut j: usize = 0;
            while j < dims.len()
                invariant
                    j <= dims.len(),
                    self.table.wf(),
                    bucket_size == self.table.bucket_size,
                    own.len() == dims@.len(),
                    forall|k: int|
                        0 <= k < dims@.len() ==> #[trigger] own[k] == layout::point_at(
                            bucket_size,
                            tx_seq as int,
                            (dims@[k].0, dims@[k].1@),
                        ),
                    forall|key: Vec<u8>, bucket_id: u64| call_requires(encode_row_key, (&key, bucket_id)),
                    layout::are_bits_of(bits@, done + own.take(j as int), *checkpoint, encode_row_key),
                decreases dims.len() - j,
            {
                let ghost before = bits@;
                layout::emit(
                    &mut bits,
                    &self.table,
                    tx_seq,
                    dims[j].0,
                    &dims[j].1,
                    checkpoint,
                    &encode_row_key,
                );
                proof {
                    let points = done + own.take(j + 1);
                    assert(points.drop_last() =~= done + own.take(j as int));
                    assert(points.last() == own[j as int]);
                    assert forall|k: int| 0 <= k < bits@.len() implies layout::is_bit_of(
                        #[trigger] bits@[k],
                        points[k],
                        *checkpoint,
                        encode_row_key,
                    ) by {
                        if k < before.len() {
                            assert(bits@[k] == bits@.drop_last()[k]);
                            assert(points[k] == points.drop_last()[k]);
                        }
                    }
                }
                j = j + 1;
            }
            proof {
                assert(own.take(j as int) =~= own);
                assert(txs.take(i + 1).drop_last() =~= txs.take(i as int));
            }
            i = i + 1;
        }
        assert(txs.take(i as int) =~= txs);
        bits
    }
}

impl BitmapIndexProcessor for TransactionBitmapProcessor {
    open spec fn table_name(&self) -> Seq<char> {
        self.table.name@
    }

    open spec fn column_name(&self) -> Seq<char> {
        self.table.column@
    }

    /// The first transaction of the next bucket.
    open spec fn sealed_at(&self, bucket_id: u64) -> int {
        (bucket_id + 1) * self.table.bucket_size
    }

    open spec fn can_seal(&self, bucket_id: u64) -> bool {
        bucket_id < u64::MAX && (bucket_id + 1) * self.table.bucket_size <= u64::MAX
    }

    fn table(&self) -> (table: &'static str) {
        self.table.name
    }

    fn column(&self) -> (column: &'static str) {
        self.table.column
    }

    fn can_seal_bucket(&self, bucket_id: u64) -> (can: bool) {
        bucket_id < u64::MAX && (bucket_id + 1).checked_mul(self.table.bucket_size).is_some()
    }

    fn seal_tx_hi_exclusive(&self, bucket_id: u64) -> (tx_hi: u64) {
        (bucket_id + 1) * self.table.bucket_size
    }
}

/// A bit tells its transaction: bucket and position give the sequence number back.
pub proof fn law_transaction_bits_are_reversible(bucket_size: u64, tx_seq: u64, dim: Dimension)
    requires
        0 < bucket_size <= u32::MAX,
    ensures
        ({
            let point = layout::point_at(bucket_size, tx_seq as int, dim);
            &&& point.bucket_id * bucket_size + point.bit_position == tx_seq
            &&& point.bit_position < bucket_size
        }),
{
    let size = bucket_size as int;
    let seq = tx_seq as int;
    vstd::arithmetic::div_mod::lemma_fundamental_div_mod(seq, size);
    vstd::arithmetic::div_mod::lemma_div_pos_is_pos(seq, size);
    vstd::arithmetic::div_mod::lemma_div_is_ordered_by_denominator(seq, 1, size);
    assert(size * (seq / size) == (seq / size) * size) by (nonlinear_arith);
    assert(seq / 1 == seq);
}

/// A bucket is sealed exactly when the watermark has passed its transactions: no
/// transaction from there on contributes to it or to an earlier one, and every
/// transaction before does.
pub proof fn law_transaction_buckets_seal(
    processor: TransactionBitmapProcessor,
    bucket_id: u64,
    tx_seq: u64,
    dim: Dimension,
)
    requires
        processor.table.wf(),
    ensures
        layout::point_at(processor.table.bucket_size, tx_seq as int, dim).bucket_id <= bucket_id <==> tx_seq
            < processor.sealed_at(bucket_id),
{
    let size = processor.table.bucket_size as int;
    let seq = tx_seq as int;
    law_transaction_bits_are_reversible(processor.table.bucket_size, tx_seq, dim);
    let point = layout::point_at(processor.table.bucket_size, seq, dim);
    let q = point.bucket_id as int;
    let r = point.bit_position as int;
    let b = bucket_id as int;
    if q <= b {
        assert(q * size + r < (b + 1) * size) by (nonlinear_arith)
            requires
                q <= b,
                0 <= r < size,
        ;
    } else {
        assert(q * size + r >= (b + 1) * size) by (nonlinear_arith)
            requires
                q >= b + 1,
                0 <= r,
                size > 0,
        ;
    }
}

/// The bit of one dimension of the `i`-th transaction is among those of all.
proof fn lemma_transaction_is_among(
    bucket_size: u64,
    tx_lo: int,
    txs: Seq<ExecutedTransaction>,
    i: int,
    j: int,
) -> (k: int)
    requires
        0 <= i < txs.len(),
        0 <= j < dimensions::transaction_dimensions(txs[i]).len(),
    ensures
        0 <= k < transactions_bits(bucket_size, tx_lo, txs).len(),
        transactions_bits(bucket_size, tx_lo, txs)[k] == layout::point_at(
            bucket_size,
            tx_lo + i,
            dimensions::transaction_dimensions(txs[i])[j],
        ),
    decreases txs.len(),
{
    let front = transactions_bits(bucket_size, tx_lo, txs.drop_last());
    if i == txs.len() - 1 {
        front.len() + j
    } else {
        lemma_transaction_is_among(bucket_size, tx_lo, txs.drop_last(), i, j)
    }
}

/// Every bit is that of one dimension of one of the transactions.
proof fn lemma_transaction_source(bucket_size: u64, tx_lo: int, txs: Seq<ExecutedTransaction>, k: int) -> (source: (
    int,
    int,
))
    requires
        0 <= k < transactions_bits(bucket_size, tx_lo, txs).len(),
    ensures
        0 <= source.0 < txs.len(),
        0 <= source.1 < dimensions::transaction_dimensions(txs[source.0]).len(),
        transactions_bits(bucket_size, tx_lo, txs)[k] == layout::point_at(
            bucket_size,
            tx_lo + source.0,
            dimensions::transaction_dimensions(txs[source.0])[source.1],
        ),
    decreases txs.len(),
{
    let front = transactions_bits(bucket_size, tx_lo, txs.drop_last());
    if k < front.len() {
        lemma_transaction_source(bucket_size, tx_lo, txs.drop_last(), k)
    } else {
        (txs.len() - 1, k - front.len())
    }
}

/// The point is the bit of a dimension at a position: in the row of the dimension's key,
/// with the position told by bucket and bit.
pub open spec fn marks(point: Point, bucket_size: u64, seq: int, dim: Dimension) -> bool {
    &&& point.dimension_key == dimensions::dimension_key(dim.0, dim.1)
    &&& point.bucket_id * bucket_size + point.bit_position == seq
    &&& point.bit_position < bucket_size
}

/// Every transaction of a checkpoint is indexed by each of its dimensions, at its own
/// sequence number: the checkpoint's transactions are the last of the total.
pub proof fn law_transactions_are_indexed(
    processor: TransactionBitmapProcessor,
    checkpoint: Checkpoint,
    i: int,
    dim: Dimension,
)
    requires
        0 < processor.table.bucket_size <= u32::MAX,
        checkpoint.transactions@.len() <= checkpoint.network_total_transactions,
        0 <= i < checkpoint.transactions@.len(),
        dimensions::transaction_dimensions(checkpoint.transactions@[i]).contains(dim),
    ensures
        exists|k: int|
            0 <= k < processor.points(checkpoint).len() && marks(
                #[trigger] processor.points(checkpoint)[k],
                processor.table.bucket_size,
                checkpoint.network_total_transactions - checkpoint.transactions@.len() + i,
                dim,
            ),
{
    let dims = dimensions::transaction_dimensions(checkpoint.transactions@[i]);
    let j = choose|j: int| 0 <= j < dims.len() && dims[j] == dim;
    let size = processor.table.bucket_size;
    let seq = checkpoint.tx_lo() + i;
    let k = lemma_transaction_is_among(size, checkpoint.tx_lo(), checkpoint.transactions@, i, j);
    layout::law_points_tell_their_position(size, seq, dim);
    assert(marks(processor.points(checkpoint)[k], size, seq, dim));
}

/// The dimension is one of the `i`-th transaction of the checkpoint, and the point is its
/// bit at the transaction's sequence number.
pub open spec fn indexes_transaction(
    processor: TransactionBitmapProcessor,
    checkpoint: Checkpoint,
    point: Point,
    i: int,
    dim: Dimension,
) -> bool {
    &&& 0 <= i < checkpoint.transactions@.len()
    &&& dimensions::transaction_dimensions(checkpoint.transactions@[i]).contains(dim)
    &&& marks(
        point,
        processor.table.bucket_size,
        checkpoint.network_total_transactions - checkpoint.transactions@.len() + i,
        dim,
    )
}

/// Nothing else is indexed: every bit of a checkpoint is that of a dimension of one of
/// its transactions, at the transaction's sequence number.
pub proof fn law_only_transactions_are_indexed(
    processor: TransactionBitmapProcessor,
    checkpoint: Checkpoint,
    k: int,
)
    requires
        0 < processor.table.bucket_size <= u32::MAX,
        checkpoint.transactions@.len() <= checkpoint.network_total_transactions,
        0 <= k < processor.points(checkpoint).len(),
    ensures
        exists|i: int, dim: Dimension|
            indexes_transaction(processor, checkpoint, processor.points(checkpoint)[k], i, dim),
{
    let size = processor.table.bucket_size;
    let (i, j) = lemma_transaction_source(size, checkpoint.tx_lo(), checkpoint.transactions@, k);
    let dim = dimensions::transaction_dimensions(checkpoint.transactions@[i])[j];
    layout::law_points_tell_their_position(size, checkpoint.tx_lo() + i, dim);
    assert(indexes_transaction(processor, checkpoint, processor.points(checkpoint)[k], i, dim));
}

/// A bucket straddles the startup watermark exactly if a transaction below it falls into
/// the bucket: the first of the bucket does, or none.
pub proof fn law_transaction_buckets_straddle(
    processor: TransactionBitmapProcessor,
    startup_tx_hi: u64,
    bucket_id: u64,
    tx_seq: u64,
)
    requires
        processor.table.wf(),
    ensures
        processor::straddles(processor, startup_tx_hi, bucket_id) <==> bucket_id * processor.table.bucket_size
            < startup_tx_hi,
        tx_seq < startup_tx_hi && tx_seq as int / processor.table.bucket_size as int == bucket_id
            ==> processor::straddles(processor, startup_tx_hi, bucket_id),
{
    let size = processor.table.bucket_size as int;
    let b = bucket_id as int;
    assert((b - 1 + 1) * size == b * size);
    if b == 0 {
        assert(b * size == 0) by (nonlinear_arith)
            requires
                b == 0,
        ;
    }
    if tx_seq as int / size == b {
        vstd::arithmetic::div_mod::lemma_fundamental_div_mod(tx_seq as int, size);
        assert(size * b == b * size) by (nonlinear_arith);
    }
}

/// What an earlier process may have written is looked up: a row that is new is marked to
/// be loaded if a transaction below the startup watermark falls into its bucket. This
/// goes for both the accumulated state and the buffer.
pub proof fn law_rows_with_earlier_transactions_are_loaded(
    processor: TransactionBitmapProcessor,
    startup_tx_hi: u64,
    tx_seq: u64,
    key: Seq<u8>,
    state: AccumulatedView,
    batch: Map<Seq<u8>, RowView>,
    buffer: BufferView,
    message: MessageView,
)
    requires
        processor.table.wf(),
        tx_seq < startup_tx_hi,
    ensures
        batch.contains_key(key) && !state.rows.contains_key(key) && !state.aside.contains_key(key) && tx_seq as int
            / processor.table.bucket_size as int == batch[key].bucket_id ==> state.merged(
            processor,
            startup_tx_hi,
            batch,
        ).needs_load.contains(key),
        message.rows.contains_key(key) && !buffer.canonical.contains_key(key) && tx_seq as int
            / processor.table.bucket_size as int == message.rows[key].bucket_id ==> {
            let merged = buffer.merged(processor, startup_tx_hi, message);
            merged.canonical.contains_key(key) && merged.canonical[key].needs_load
        },
{
    if batch.contains_key(key) {
        law_transaction_buckets_straddle(processor, startup_tx_hi, batch[key].bucket_id, tx_seq);
    }
    if message.rows.contains_key(key) {
        law_transaction_buckets_straddle(processor, startup_tx_hi, message.rows[key].bucket_id, tx_seq);
    }
}

/// A checkpoint can be processed exactly if the bucket size is a position of a bitmap,
/// and the total counts the checkpoint's own transactions.
pub proof fn law_checkpoints_can_be_processed(processor: TransactionBitmapProcessor, checkpoint: Checkpoint)
    ensures
        processor.can_process(checkpoint) <==> 0 < processor.table.bucket_size <= 0xffff_ffff
            && checkpoint.transactions@.len() <= checkpoint.network_total_transactions,
{
}

/// A bucket can be sealed exactly if the transactions up to its end can be counted.
pub proof fn law_buckets_can_be_sealed(processor: TransactionBitmapProcessor, bucket_id: u64)
    ensures
        processor.can_seal(bucket_id) <==> bucket_id < u64::MAX && processor.sealed_at(bucket_id) <= u64::MAX,
{
}

/// The index is written under the table's own name and column, by a pipeline of its own.
pub proof fn law_the_index_has_its_names(processor: TransactionBitmapProcessor)
    ensures
        processor.table_name() == processor.table.name@,
        processor.column_name() == processor.table.column@,
        processor.pipeline() == "kvstore_transaction_bitmap_index"@,
{
}

} // verus!
