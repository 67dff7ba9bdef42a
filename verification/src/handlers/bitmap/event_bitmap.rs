//! The bitmap index of events.
//!
//! There is one bit for each dimension value and event that has it. A bit's position
//! is the event's packed sequence number, so matches are found event by event.

use vstd::prelude::*;

use crate::bigtable::store::bitmap_buffer::BufferView;
use crate::bigtable::store::index_batch::MessageView;
use crate::bigtable::store::processor;
use crate::bigtable::store::BitmapIndexProcessor;
use crate::dimensions;
use crate::dimensions::EventDimension;
use crate::dimensions::ExecutedTransaction;
use crate::handlers::bitmap::accumulated::AccumulatedView;
use crate::handlers::bitmap::batch::RowView;
use crate::handlers::bitmap::layout;
use crate::handlers::bitmap::layout::BitmapTable;
use crate::handlers::bitmap::layout::Checkpoint;
use crate::handlers::bitmap::layout::IndexedBit;
use crate::handlers::bitmap::layout::Point;
use crate::handlers::bitmap::layout::Processor;

verus! {

/// The name of the pipeline.
pub const EVENT_BITMAP_PIPELINE: &'static str = "kvstore_event_bitmap_index";

/// Feeds the index of events: one bit for each dimension and event.
#[derive(Clone, Copy)]
pub struct EventBitmapProcessor {
    pub table: BitmapTable,
    /// The positions that are set aside for the events of one transaction.
    pub max_events_per_tx: u32,
}

/// The packed sequence number of a transaction's event.
pub open spec fn event_seq(max_events_per_tx: u32, tx_seq: int, event_idx: int) -> int {
    tx_seq * max_events_per_tx + event_idx
}

/// The bit of an event dimension of a transaction.
pub open spec fn event_point(processor: EventBitmapProcessor, tx_seq: int, dim: EventDimension) -> Point {
    layout::point_at(
        processor.table.bucket_size,
        event_seq(processor.max_events_per_tx, tx_seq, dim.2 as int),
        (dim.0, dim.1),
    )
}

/// The bits of the events of a transaction.
pub open spec fn transaction_event_bits(
    processor: EventBitmapProcessor,
    tx_seq: int,
    tx: ExecutedTransaction,
) -> Seq<Point> {
    dimensions::event_dimensions(tx.sender@, tx.events@).map_values(
        |dim: EventDimension| event_point(processor, tx_seq, dim),
    )
}

/// The bits of the events of consecutive transactions, of which the first has
/// sequence number `tx_lo`.
pub open spec fn transactions_event_bits(
    processor: EventBitmapProcessor,
    tx_lo: int,
    txs: Seq<ExecutedTransaction>,
) -> Seq<Point>
    decreases txs.len(),
{
    if txs.len() == 0 {
        seq![]
    } else {
        transactions_event_bits(processor, tx_lo, txs.drop_last()) + transaction_event_bits(
            processor,
            tx_lo + txs.len() - 1,
            txs.last(),
        )
    }
}

impl EventBitmapProcessor {
    /// The table is cut into buckets, and a transaction can have events.
    pub open spec fn wf(&self) -> bool {
        &&& self.table.wf()
        &&& self.max_events_per_tx > 0
    }

    /// The events of a transaction fit in the positions that are set aside for them,
    /// and their sequence numbers in 64 bits.
    pub open spec fn fits(&self, tx_seq: int, tx: ExecutedTransaction) -> bool {
        &&& tx.events@.len() <= self.max_events_per_tx
        &&& tx.events@.len() > 0 ==> event_seq(self.max_events_per_tx, tx_seq, tx.events@.len() - 1)
            <= u64::MAX
    }

    /// Whether the events of a transaction have room in the index.
    fn has_room_for(&self, tx_seq: u64, tx: &ExecutedTransaction) -> (fits: bool)
        ensures
            fits == self.fits(tx_seq as int, *tx),
    {
        let events: u64 = tx.events.len() as u64;
        if events > self.max_events_per_tx as u64 {
            return false;
        }
        if events == 0 {
            return true;
        }
        match tx_seq.checked_mul(self.max_events_per_tx as u64) {
            Some(first) => first.checked_add(events - 1).is_some(),
            None => false,
        }
    }
}

impl Processor for EventBitmapProcessor {
    open spec fn pipeline(&self) -> Seq<char> {
        EVENT_BITMAP_PIPELINE@
    }

    open spec fn can_process(&self, checkpoint: Checkpoint) -> bool {
        &&& self.wf()
        &&& checkpoint.wf()
        &&& forall|i: int|
            0 <= i < checkpoint.transactions@.len() ==> self.fits(
                checkpoint.tx_lo() + i,
                #[trigger] checkpoint.transactions@[i],
            )
    }

    /// The bits of the events of the checkpoint's transactions.
    open spec fn points(&self, checkpoint: Checkpoint) -> Seq<Point> {
        transactions_event_bits(*self, checkpoint.tx_lo(), checkpoint.transactions@)
    }

    fn name(&self) -> (name: &'static str) {
        EVENT_BITMAP_PIPELINE
    }

    fn can_process_checkpoint(&self, checkpoint: &Checkpoint) -> (can: bool) {
        if !self.table.is_well_formed() || self.max_events_per_tx == 0 || !checkpoint.is_well_formed() {
            return false;
        }
        let tx_lo: u64 = checkpoint.network_total_transactions - checkpoint.transactions.len() as u64;
        let mut i: usize = 0;
        while i < checkpoint.transactions.len()
            invariant
                i <= checkpoint.transactions.len(),
                tx_lo == checkpoint.tx_lo(),
                tx_lo + checkpoint.transactions@.len() <= u64::MAX,
                forall|k: int|
                    0 <= k < i ==> self.fits(tx_lo + k, #[trigger] checkpoint.transactions@[k]),
            decreases checkpoint.transactions.len() - i,
        {
            if !self.has_room_for(tx_lo + i as u64, &checkpoint.transactions[i]) {
                assert(!self.fits(tx_lo + i, checkpoint.transactions@[i as int]));
                return false;
            }
            i += 1;
        }
        true
    }

    fn process<F: Fn(&Vec<u8>, u64) -> Vec<u8>>(&self, checkpoint: &Checkpoint, encode_row_key: F) -> (bits:
        Vec<IndexedBit>) {
        // The total counts this checkpoint's own transactions, so this is the first.
        let tx_lo: u64 = checkpoint.network_total_transactions - checkpoint.transactions.len() as u64;
        let mut bits: Vec<IndexedBit> = Vec::new();
        let ghost txs = checkpoint.transactions@;
        let mut i: usize = 0;
        while i < checkpoint.transactions.len()
            invariant
                i <= checkpoint.transactions.len(),
                self.wf(),
                txs == checkpoint.transactions@,
                tx_lo == checkpoint.tx_lo(),
                tx_lo + txs.len() <= u64::MAX,
                forall|k: int| 0 <= k < txs.len() ==> self.fits(tx_lo + k, #[trigger] txs[k]),
                forall|key: Vec<u8>, bucket_id: u64| call_requires(encode_row_key, (&key, bucket_id)),
                layout::are_bits_of(
                    bits@,
                    transactions_event_bits(*self, tx_lo as int, txs.take(i as int)),
                    *checkpoint,
                    encode_row_key,
                ),
            decreases checkpoint.transactions.len() - i,
        {
            let tx_seq: u64 = tx_lo + i as u64;
            let tx = &checkpoint.transactions[i];
            let dims = dimensions::extract_event_dimensions(tx);
            let ghost done = transactions_event_bits(*self, tx_lo as int, txs.take(i as int));
            let ghost all = dimensions::event_dimensions(tx.sender@, tx.events@);
            let ghost own = transaction_event_bits(*self, tx_seq as int, txs[i as int]);
            proof {
                assert(self.fits(tx_lo + i, txs[i as int]));
                lemma_event_indices(tx.sender@, tx.events@);
                assert(done + own.take(0) =~= done);
            }
            let mut j: usize = 0;
            while j < dims.len()
                invariant
                    j <= dims.len(),
                    self.wf(),
                    self.fits(tx_seq as int, *tx),
                    own.len() == dims@.len(),
                    all.len() == dims@.len(),
                    forall|k: int|
                        0 <= k < dims@.len() ==> #[trigger] all[k] == (dims@[k].0, dims@[k].1@, dims@[k].2),
                    forall|k: int| 0 <= k < all.len() ==> (#[trigger] all[k]).2 < tx.events@.len(),
                    forall|k: int|
                        0 <= k < dims@.len() ==> #[trigger] own[k] == event_point(
                            *self,
                            tx_seq as int,
                            all[k],
                        ),
                    forall|key: Vec<u8>, bucket_id: u64| call_requires(encode_row_key, (&key, bucket_id)),
                    layout::are_bits_of(bits@, done + own.take(j as int), *checkpoint, encode_row_key),
                decreases dims.len() - j,
            {
                let ghost before = bits@;
                let event_idx: u32 = dims[j].2;
                proof {
                    assert(all[j as int].2 == event_idx);
                    let max = self.max_events_per_tx as int;
                    let seq = tx_seq as int;
                    assert(0 <= seq * max) by (nonlinear_arith)
                        requires
                            0 <= seq,
                            0 <= max,
                    ;
                }
                let event_seq: u64 = tx_seq * self.max_events_per_tx as u64 + event_idx as u64;
                layout::emit(
                    &mut bits,
                    &self.table,
                    event_seq,
                    dims[j].0,
                    &dims[j].1,
                    checkpoint,
                    &encode_row_key,
                );
                proof {
                    let points = done + own.take(j + 1);
                    assert(points.drop_last() =~= done + own.take(j as int));
                    assert(points.last() == own[j as int]);
                    assert forall|k: int| 0 <= k < bits@.len() implies layout::is_bit_of(
                        #[trigger] bits@[k],
                        points[k],
                        *checkpoint,
                        encode_row_key,
                    ) by {
                        if k < before.len() {
                            assert(bits@[k] == bits@.drop_last()[k]);
                            assert(points[k] == points.drop_last()[k]);
                        }
                    }
                }
                j = j + 1;
            }
            proof {
                assert(own.take(j as int) =~= own);
                assert(txs.take(i + 1).drop_last() =~= txs.take(i as int));
            }
            i = i + 1;
        }
        assert(txs.take(i as int) =~= txs);
        bits
    }
}

/// An event dimension carries the index of one of the events.
proof fn lemma_event_indices(sender: Seq<u8>, events: Seq<dimensions::Event>)
    requires
        events.len() <= u32::MAX,
    ensures
        forall|k: int|
            0 <= k < dimensions::event_dimensions(sender, events).len() ==> (
            #[trigger] dimensions::event_dimensions(sender, events)[k]).2 < events.len(),
    decreases events.len(),
{
    if events.len() > 0 {
        let front = dimensions::event_dimensions(sender, events.drop_last());
        lemma_event_indices(sender, events.drop_last());
        assert forall|k: int| 0 <= k < dimensions::event_dimensions(sender, events).len() implies (
        #[trigger] dimensions::event_dimensions(sender, events)[k]).2 < events.len() by {
            if k < front.len() {
                assert(dimensions::event_dimensions(sender, events)[k] == front[k]);
            }
        }
    }
}

impl BitmapIndexProcessor for EventBitmapProcessor {
    open spec fn table_name(&self) -> Seq<char> {
        self.table.name@
    }

    open spec fn column_name(&self) -> Seq<char> {
        self.table.column@
    }

    /// The first transaction whose first event is past the bucket: the end of the
    /// bucket, divided by the positions of a transaction, rounded up.
    open spec fn sealed_at(&self, bucket_id: u64) -> int {
        ((bucket_id + 1) * self.table.bucket_size + self.max_events_per_tx - 1) / (self.max_events_per_tx as int)
    }

    open spec fn can_seal(&self, bucket_id: u64) -> bool {
        &&& self.max_events_per_tx > 0
        &&& bucket_id < u64::MAX
        &&& (bucket_id + 1) * self.table.bucket_size <= u64::MAX
    }

    fn table(&self) -> (table: &'static str) {
        self.table.name
    }

    fn column(&self) -> (column: &'static str) {
        self.table.column
    }

    fn can_seal_bucket(&self, bucket_id: u64) -> (can: bool) {
        self.max_events_per_tx > 0 && bucket_id < u64::MAX && (bucket_id + 1).checked_mul(
            self.table.bucket_size,
        ).is_some()
    }

    fn seal_tx_hi_exclusive(&self, bucket_id: u64) -> (tx_hi: u64) {
        let end: u64 = (bucket_id + 1) * self.table.bucket_size;
        let max: u64 = self.max_events_per_tx as u64;
        let quotient: u64 = end / max;
        let remainder: u64 = end % max;
        proof {
            lemma_round_up(end as int, max as int);
        }
        if remainder > 0 {
            quotient + 1
        } else {
            quotient
        }
    }
}

/// Rounding a quotient up.
proof fn lemma_round_up(x: int, d: int)
    requires
        0 <= x <= u64::MAX,
        0 < d,
    ensures
        (x + d - 1) / d == if x % d > 0 { x / d + 1 } else { x / d },
        x % d > 0 ==> x / d < u64::MAX,
{
    let q = x / d;
    let r = x % d;
    vstd::arithmetic::div_mod::lemma_fundamental_div_mod(x, d);
    if r > 0 {
        assert(x + d - 1 == d * (q + 1) + (r - 1)) by (nonlinear_arith)
            requires
                x == d * q + r,
        ;
        vstd::arithmetic::div_mod::lemma_fundamental_div_mod_converse(x + d - 1, d, q + 1, r - 1);
        assert(q < u64::MAX) by (nonlinear_arith)
            requires
                x == d * q + r,
                0 <= x <= u64::MAX,
                0 < r < d,
        ;
    } else {
        assert(x + d - 1 == d * q + (d - 1));
        vstd::arithmetic::div_mod::lemma_fundamental_div_mod_converse(x + d - 1, d, q, d - 1);
    }
}

/// No two events share a packed sequence number.
pub proof fn law_event_seqs_do_not_collide(
    max_events_per_tx: u32,
    a_tx: u64,
    a_idx: u32,
    b_tx: u64,
    b_idx: u32,
)
    requires
        a_idx < max_events_per_tx,
        b_idx < max_events_per_tx,
        event_seq(max_events_per_tx, a_tx as int, a_idx as int) == event_seq(
            max_events_per_tx,
            b_tx as int,
            b_idx as int,
        ),
    ensures
        a_tx == b_tx,
        a_idx == b_idx,
{
    let max = max_events_per_tx as int;
    let x = event_seq(max_events_per_tx, a_tx as int, a_idx as int);
    vstd::arithmetic::div_mod::lemma_fundamental_div_mod_converse(x, max, a_tx as int, a_idx as int);
    vstd::arithmetic::div_mod::lemma_fundamental_div_mod_converse(x, max, b_tx as int, b_idx as int);
}

/// A bit tells its event: bucket and position give the packed sequence number back.
pub proof fn law_event_bits_are_reversible(processor: EventBitmapProcessor, tx_seq: u64, dim: EventDimension)
    requires
        processor.wf(),
        event_seq(processor.max_events_per_tx, tx_seq as int, dim.2 as int) <= u64::MAX,
    ensures
        ({
            let point = event_point(processor, tx_seq as int, dim);
            &&& point.bucket_id * processor.table.bucket_size + point.bit_position == event_seq(
                processor.max_events_per_tx,
                tx_seq as int,
                dim.2 as int,
            )
            &&& point.bit_position < processor.table.bucket_size
        }),
{
    let size = processor.table.bucket_size as int;
    let seq = event_seq(processor.max_events_per_tx, tx_seq as int, dim.2 as int);
    let max = processor.max_events_per_tx as int;
    assert(0 <= tx_seq * max) by (nonlinear_arith)
        requires
            0 <= max,
    ;
    vstd::arithmetic::div_mod::lemma_fundamental_div_mod(seq, size);
    vstd::arithmetic::div_mod::lemma_div_pos_is_pos(seq, size);
    vstd::arithmetic::div_mod::lemma_div_is_ordered_by_denominator(seq, 1, size);
    assert(size * (seq / size) == (seq / size) * size) by (nonlinear_arith);
    assert(seq / 1 == seq);
}

/// A bucket is sealed exactly when the watermark has passed its transactions: no
/// event of a transaction from there on contributes to it or to an earlier one, and
/// the first event of every transaction before does.
pub proof fn law_event_buckets_seal(
    processor: EventBitmapProcessor,
    bucket_id: u64,
    tx_seq: u64,
    dim: EventDimension,
)
    requires
        processor.wf(),
        event_seq(processor.max_events_per_tx, tx_seq as int, dim.2 as int) <= u64::MAX,
    ensures
        tx_seq >= processor.sealed_at(bucket_id) ==> event_point(processor, tx_seq as int, dim).bucket_id
            > bucket_id,
        tx_seq < processor.sealed_at(bucket_id) && dim.2 == 0 ==> event_point(
            processor,
            tx_seq as int,
            dim,
        ).bucket_id <= bucket_id,
{
    law_event_bits_are_reversible(processor, tx_seq, dim);
    let size = processor.table.bucket_size as int;
    let max = processor.max_events_per_tx as int;
    let point = event_point(processor, tx_seq as int, dim);
    let q = point.bucket_id as int;
    let r = point.bit_position as int;
    let b = bucket_id as int;
    let t = tx_seq as int;
    let idx = dim.2 as int;
    let end = (b + 1) * size;
    let sealed = processor.sealed_at(bucket_id);
    // `sealed` is `end / max`, rounded up.
    vstd::arithmetic::div_mod::lemma_fundamental_div_mod(end + max - 1, max);
    assert(max * sealed <= end + max - 1 < max * sealed + max);
    if t >= sealed {
        assert(t * max >= end) by (nonlinear_arith)
            requires
                t >= sealed,
                end + max - 1 < max * sealed + max,
                max > 0,
        ;
        assert(q > b) by (nonlinear_arith)
            requires
                q * size + r >= (b + 1) * size,
                r < size,
                size > 0,
        ;
    }
    if t < sealed && idx == 0 {
        assert(t * max < end) by (nonlinear_arith)
            requires
                t <= sealed - 1,
                max * sealed <= end + max - 1,
                max > 0,
        ;
        assert(q <= b) by (nonlinear_arith)
            requires
                q * size + r < (b + 1) * size,
                r >= 0,
                size > 0,
        ;
    }
}

/// The bit of one dimension of an event of the `i`-th transaction is among those of all.
proof fn lemma_event_is_among(
    processor: EventBitmapProcessor,
    tx_lo: int,
    txs: Seq<ExecutedTransaction>,
    i: int,
    j: int,
) -> (k: int)
    requires
        0 <= i < txs.len(),
        0 <= j < dimensions::event_dimensions(txs[i].sender@, txs[i].events@).len(),
    ensures
        0 <= k < transactions_event_bits(processor, tx_lo, txs).len(),
        transactions_event_bits(processor, tx_lo, txs)[k] == event_point(
            processor,
            tx_lo + i,
            dimensions::event_dimensions(txs[i].sender@, txs[i].events@)[j],
        ),
    decreases txs.len(),
{
    let front = transactions_event_bits(processor, tx_lo, txs.drop_last());
    if i == txs.len() - 1 {
        front.len() + j
    } else {
        lemma_event_is_among(processor, tx_lo, txs.drop_last(), i, j)
    }
}

/// Every bit is that of one dimension of an event of one of the transactions.
proof fn lemma_event_source(processor: EventBitmapProcessor, tx_lo: int, txs: Seq<ExecutedTransaction>, k: int) -> (source:
    (int, int))
    requires
        0 <= k < transactions_event_bits(processor, tx_lo, txs).len(),
    ensures
        0 <= source.0 < txs.len(),
        0 <= source.1 < dimensions::event_dimensions(txs[source.0].sender@, txs[source.0].events@).len(),
        transactions_event_bits(processor, tx_lo, txs)[k] == event_point(
            processor,
            tx_lo + source.0,
            dimensions::event_dimensions(txs[source.0].sender@, txs[source.0].events@)[source.1],
        ),
    decreases txs.len(),
{
    let front = transactions_event_bits(processor, tx_lo, txs.drop_last());
    if k < front.len() {
        lemma_event_source(processor, tx_lo, txs.drop_last(), k)
    } else {
        (txs.len() - 1, k - front.len())
    }
}

/// The point is the bit of a dimension of the `e`-th event of the `i`-th transaction of
/// the checkpoint: in the row of the dimension's key, at the position that is set aside
/// for that event.
pub open spec fn marks_event(
    processor: EventBitmapProcessor,
    checkpoint: Checkpoint,
    point: Point,
    i: int,
    e: int,
    dim: dimensions::Dimension,
) -> bool {
    let tx_seq = checkpoint.network_total_transactions - checkpoint.transactions@.len() + i;
    &&& point.dimension_key == dimensions::dimension_key(dim.0, dim.1)
    &&& point.bucket_id * processor.table.bucket_size + point.bit_position == tx_seq * processor.max_events_per_tx
        + e
    &&& point.bit_position < processor.table.bucket_size
}

/// The position of an event of a checkpoint that can be processed fits in 64 bits.
proof fn lemma_event_position(processor: EventBitmapProcessor, checkpoint: Checkpoint, i: int, e: int)
    requires
        processor.can_process(checkpoint),
        0 <= i < checkpoint.transactions@.len(),
        0 <= e < checkpoint.transactions@[i].events@.len(),
    ensures
        0 <= event_seq(processor.max_events_per_tx, checkpoint.tx_lo() + i, e) <= u64::MAX,
        e < u32::MAX,
{
    let max = processor.max_events_per_tx as int;
    let tx_seq = checkpoint.tx_lo() + i;
    assert(processor.fits(tx_seq, checkpoint.transactions@[i]));
    assert(0 <= tx_seq * max) by (nonlinear_arith)
        requires
            0 <= tx_seq,
            0 <= max,
    ;
}

/// Every event of a checkpoint is indexed by each of its dimensions, at its own packed
/// sequence number: its transaction's, times the positions that are set aside for a
/// transaction, plus its index.
pub proof fn law_events_are_indexed(
    processor: EventBitmapProcessor,
    checkpoint: Checkpoint,
    i: int,
    e: int,
    dim: dimensions::Dimension,
)
    requires
        processor.can_process(checkpoint),
        0 <= i < checkpoint.transactions@.len(),
        0 <= e < checkpoint.transactions@[i].events@.len(),
        ({
            let tx = checkpoint.transactions@[i];
            dimensions::finds_event(tx.sender@, tx.events@, (dim.0, dim.1, e as u32), e)
        }),
    ensures
        exists|k: int|
            0 <= k < processor.points(checkpoint).len() && marks_event(
                processor,
                checkpoint,
                #[trigger] processor.points(checkpoint)[k],
                i,
                e,
                dim,
            ),
{
    let tx = checkpoint.transactions@[i];
    let dims = dimensions::event_dimensions(tx.sender@, tx.events@);
    let item = (dim.0, dim.1, e as u32);
    dimensions::law_events_are_found_by_their_parts(tx.sender@, tx.events@, e);
    assert(dims.contains(item));
    let j = choose|j: int| 0 <= j < dims.len() && dims[j] == item;
    lemma_event_position(processor, checkpoint, i, e);
    let seq = event_seq(processor.max_events_per_tx, checkpoint.tx_lo() + i, e);
    let k = lemma_event_is_among(processor, checkpoint.tx_lo(), checkpoint.transactions@, i, j);
    layout::law_points_tell_their_position(processor.table.bucket_size, seq, dim);
    assert(marks_event(processor, checkpoint, processor.points(checkpoint)[k], i, e, dim));
}

/// The dimension is one by which the `e`-th event of the `i`-th transaction is found, and
/// the point is its bit.
pub open spec fn indexes_event(
    processor: EventBitmapProcessor,
    checkpoint: Checkpoint,
    point: Point,
    i: int,
    e: int,
    dim: dimensions::Dimension,
) -> bool {
    &&& 0 <= i < checkpoint.transactions@.len()
    &&& {
        let tx = checkpoint.transactions@[i];
        dimensions::finds_event(tx.sender@, tx.events@, (dim.0, dim.1, e as u32), e)
    }
    &&& marks_event(processor, checkpoint, point, i, e, dim)
}

/// Nothing else is indexed: every bit of a checkpoint is that of a dimension of an event
/// of one of its transactions, at the event's packed sequence number.
pub proof fn law_only_events_are_indexed(processor: EventBitmapProcessor, checkpoint: Checkpoint, k: int)
    requires
        processor.can_process(checkpoint),
        0 <= k < processor.points(checkpoint).len(),
    ensures
        exists|i: int, e: int, dim: dimensions::Dimension|
            indexes_event(processor, checkpoint, processor.points(checkpoint)[k], i, e, dim),
{
    let (i, j) = lemma_event_source(processor, checkpoint.tx_lo(), checkpoint.transactions@, k);
    let tx = checkpoint.transactions@[i];
    let dims = dimensions::event_dimensions(tx.sender@, tx.events@);
    let item = dims[j];
    assert(dims.contains(item));
    dimensions::law_event_dimensions_name_the_event_at_their_index(tx.sender@, tx.events@, item);
    let e = choose|e: int| dimensions::finds_event(tx.sender@, tx.events@, item, e);
    let dim = (item.0, item.1);
    assert(item == (dim.0, dim.1, e as u32));
    lemma_event_position(processor, checkpoint, i, e);
    let seq = event_seq(processor.max_events_per_tx, checkpoint.tx_lo() + i, e);
    layout::law_points_tell_their_position(processor.table.bucket_size, seq, dim);
    assert(indexes_event(processor, checkpoint, processor.points(checkpoint)[k], i, e, dim));
}

/// A bucket straddles the startup watermark exactly if a transaction below it begins at
/// or past the bucket's first position. So it does if an event of a transaction below the
/// watermark falls into the bucket, provided it is the transaction's first, or buckets
/// end where transactions do.
pub proof fn law_event_buckets_straddle(
    processor: EventBitmapProcessor,
    startup_tx_hi: u64,
    bucket_id: u64,
    tx_seq: u64,
    event_idx: u32,
)
    requires
        processor.wf(),
        event_idx < processor.max_events_per_tx,
    ensures
        startup_tx_hi > 0 ==> (processor::straddles(processor, startup_tx_hi, bucket_id) <==> (startup_tx_hi - 1)
            * processor.max_events_per_tx >= bucket_id * processor.table.bucket_size),
        startup_tx_hi == 0 ==> !processor::straddles(processor, startup_tx_hi, bucket_id),
        ({
            &&& tx_seq < startup_tx_hi
            &&& event_idx == 0 || processor.table.bucket_size as int % processor.max_events_per_tx as int == 0
            &&& (tx_seq * processor.max_events_per_tx + event_idx) / processor.table.bucket_size as int == bucket_id
        }) ==> processor::straddles(processor, startup_tx_hi, bucket_id),
{
    let size = processor.table.bucket_size as int;
    let max = processor.max_events_per_tx as int;
    let b = bucket_id as int;
    let s = startup_tx_hi as int;
    let t = tx_seq as int;
    let e = event_idx as int;
    let low = b * size;
    let sealed = (low + max - 1) / max;
    assert(0 <= low) by (nonlinear_arith)
        requires
            0 <= b,
            0 <= size,
            low == b * size,
    ;
    vstd::arithmetic::div_mod::lemma_fundamental_div_mod(low + max - 1, max);
    vstd::arithmetic::div_mod::lemma_div_pos_is_pos(low + max - 1, max);
    if b == 0 {
        assert(low == 0) by (nonlinear_arith)
            requires
                b == 0,
                low == b * size,
        ;
        assert((max - 1) / max == 0) by {
            vstd::arithmetic::div_mod::lemma_basic_div(max - 1, max);
        }
    } else {
        assert((b - 1 + 1) * size == low);
        assert(processor.sealed_at((bucket_id - 1) as u64) == sealed);
    }
    assert(processor::straddles(processor, startup_tx_hi, bucket_id) == (sealed < s));
    // `sealed` is `low / max`, rounded up.
    assert(max * sealed <= low + max - 1 < max * sealed + max);
    if s > 0 {
        if sealed < s {
            assert((s - 1) * max >= low) by (nonlinear_arith)
                requires
                    s - 1 >= sealed,
                    low + max - 1 < max * sealed + max,
                    max > 0,
            ;
        } else {
            assert((s - 1) * max < low) by (nonlinear_arith)
                requires
                    s - 1 < sealed,
                    max * sealed <= low + max - 1,
                    max > 0,
            ;
        }
    }
    if t < s && (e == 0 || size % max == 0) && (t * max + e) / size == b {
        vstd::arithmetic::div_mod::lemma_fundamental_div_mod(t * max + e, size);
        assert(size * b == low) by (nonlinear_arith)
            requires
                low == b * size,
        ;
        assert(t * max + e >= low);
        if e > 0 {
            vstd::arithmetic::div_mod::lemma_fundamental_div_mod(size, max);
            let q = size / max;
            assert(low == max * (b * q)) by (nonlinear_arith)
                requires
                    low == b * size,
                    size == max * q,
            ;
            let m = b * q;
            assert(t >= m) by (nonlinear_arith)
                requires
                    t * max + e >= max * m,
                    e < max,
                    max > 0,
            ;
            assert(t * max >= low) by (nonlinear_arith)
                requires
                    t >= m,
                    low == max * m,
                    max > 0,
            ;
        }
        assert((s - 1) * max >= t * max) by (nonlinear_arith)
            requires
                s - 1 >= t,
                max > 0,
        ;
    }
}

/// What an earlier process may have written is looked up: a row that is new is marked to
/// be loaded if an event of a transaction below the startup watermark falls into its
/// bucket, provided it is the transaction's first, or buckets end where transactions do.
/// This goes for both the accumulated state and the buffer.
pub proof fn law_rows_with_earlier_events_are_loaded(
    processor: EventBitmapProcessor,
    startup_tx_hi: u64,
    tx_seq: u64,
    event_idx: u32,
    key: Seq<u8>,
    state: AccumulatedView,
    batch: Map<Seq<u8>, RowView>,
    buffer: BufferView,
    message: MessageView,
)
    requires
        processor.wf(),
        tx_seq < startup_tx_hi,
        event_idx < processor.max_events_per_tx,
        event_idx == 0 || processor.table.bucket_size as int % processor.max_events_per_tx as int == 0,
    ensures
        batch.contains_key(key) && !state.rows.contains_key(key) && !state.aside.contains_key(key) && (tx_seq
            * processor.max_events_per_tx + event_idx) / processor.table.bucket_size as int == batch[key].bucket_id
            ==> state.merged(processor, startup_tx_hi, batch).needs_load.contains(key),
        message.rows.contains_key(key) && !buffer.canonical.contains_key(key) && (tx_seq
            * processor.max_events_per_tx + event_idx) / processor.table.bucket_size as int
            == message.rows[key].bucket_id ==> {
            let merged = buffer.merged(processor, startup_tx_hi, message);
            merged.canonical.contains_key(key) && merged.canonical[key].needs_load
        },
{
    if batch.contains_key(key) {
        law_event_buckets_straddle(processor, startup_tx_hi, batch[key].bucket_id, tx_seq, event_idx);
    }
    if message.rows.contains_key(key) {
        law_event_buckets_straddle(processor, startup_tx_hi, message.rows[key].bucket_id, tx_seq, event_idx);
    }
}

/// A checkpoint can be processed exactly if the bucket size is a position of a bitmap, a
/// transaction can have events, the total counts the checkpoint's own transactions, each
/// transaction has no more events than positions are set aside, and the position of its
/// last event fits in 64 bits.
pub proof fn law_checkpoints_can_be_processed(processor: EventBitmapProcessor, checkpoint: Checkpoint)
    ensures
        processor.can_process(checkpoint) <==> {
            &&& 0 < processor.table.bucket_size <= 0xffff_ffff
            &&& processor.max_events_per_tx > 0
            &&& checkpoint.transactions@.len() <= checkpoint.network_total_transactions
            &&& forall|i: int|
                0 <= i < checkpoint.transactions@.len() ==> {
                    let count = (#[trigger] checkpoint.transactions@[i]).events@.len() as int;
                    let tx_seq = checkpoint.network_total_transactions - checkpoint.transactions@.len() + i;
                    &&& count <= processor.max_events_per_tx
                    &&& count > 0 ==> tx_seq * processor.max_events_per_tx + count - 1 <= u64::MAX
                }
        },
{
    if processor.can_process(checkpoint) {
        assert forall|i: int| 0 <= i < checkpoint.transactions@.len() implies {
            let count = (#[trigger] checkpoint.transactions@[i]).events@.len() as int;
            let tx_seq = checkpoint.network_total_transactions - checkpoint.transactions@.len() + i;
            &&& count <= processor.max_events_per_tx
            &&& count > 0 ==> tx_seq * processor.max_events_per_tx + count - 1 <= u64::MAX
        } by {
            assert(processor.fits(checkpoint.tx_lo() + i, checkpoint.transactions@[i]));
        }
    }
}

/// A bucket can be sealed exactly if a transaction can have events, and the positions up
/// to the bucket's end can be counted.
pub proof fn law_buckets_can_be_sealed(processor: EventBitmapProcessor, bucket_id: u64)
    ensures
        processor.can_seal(bucket_id) <==> processor.max_events_per_tx > 0 && bucket_id < u64::MAX && (bucket_id + 1)
            * processor.table.bucket_size <= u64::MAX,
{
}

/// The index is written under the table's own name and column, by a pipeline of its own.
pub proof fn law_the_index_has_its_names(processor: EventBitmapProcessor)
    ensures
        processor.table_name() == processor.table.name@,
        processor.column_name() == processor.table.column@,
        processor.pipeline() == "kvstore_event_bitmap_index"@,
{
}

} // verus!
