//! Where a bit stands in a bitmap index, and what the processors read and emit.

use vstd::prelude::*;

use crate::bigtable::store::index_batch;
use crate::bitmap;
use crate::dimensions;
use crate::dimensions::Dimension;
use crate::dimensions::ExecutedTransaction;
use crate::handlers::bitmap::batch;

verus! {

/// The table of a bitmap index, cut into buckets of `bucket_size` positions.
#[derive(Clone, Copy)]
pub struct BitmapTable {
    pub name: &'static str,
    pub column: &'static str,
    pub bucket_size: u64,
}

impl BitmapTable {
    /// A bucket holds at least one position, and a position within a bucket fits in
    /// the 32 bits that a bitmap has for it.
    pub open spec fn wf(&self) -> bool {
        0 < self.bucket_size <= u32::MAX
    }

    /// Whether the bucket size is as it has to be.
    pub fn is_well_formed(&self) -> (well_formed: bool)
        ensures
            well_formed == self.wf(),
    {
        0 < self.bucket_size && self.bucket_size <= u32::MAX as u64
    }
}

/// What the index reads of a checkpoint.
pub struct Checkpoint {
    pub sequence_number: u64,
    /// The number of transactions up to and with this checkpoint.
    pub network_total_transactions: u64,
    pub timestamp_ms: u64,
    pub transactions: Vec<ExecutedTransaction>,
}

impl Checkpoint {
    /// The total counts the checkpoint's own transactions.
    pub open spec fn wf(&self) -> bool {
        self.transactions@.len() <= self.network_total_transactions
    }

    /// Whether the total counts the checkpoint's own transactions.
    pub fn is_well_formed(&self) -> (well_formed: bool)
        ensures
            well_formed == self.wf(),
    {
        self.transactions.len() as u64 <= self.network_total_transactions
    }

    /// The sequence number of the checkpoint's first transaction.
    pub open spec fn tx_lo(&self) -> int {
        self.network_total_transactions - self.transactions@.len()
    }
}

/// One bit to set in a row of a bitmap index, with the checkpoint that it comes
/// from.
pub struct IndexedBit {
    pub row_key: Vec<u8>,
    pub bucket_id: u64,
    pub bit_position: u32,
    pub checkpoint_seq: u64,
    /// The number of transactions up to and with the checkpoint.
    pub tx_hi_exclusive: u64,
    pub timestamp_ms: u64,
}

/// A bit in an index: the key of a dimension value, and where in that dimension the
/// bit stands.
#[verifier::ext_equal]
pub struct Point {
    pub dimension_key: Seq<u8>,
    pub bucket_id: u64,
    pub bit_position: u32,
}

/// The bit at position `seq` of a dimension.
pub open spec fn point_at(bucket_size: u64, seq: int, dim: Dimension) -> Point {
    Point {
        dimension_key: dimensions::dimension_key(dim.0, dim.1),
        bucket_id: (seq / bucket_size as int) as u64,
        bit_position: (seq % bucket_size as int) as u32,
    }
}

/// The row key is one that `encode_row_key` gives for the point.
pub open spec fn is_row_key<F: Fn(&Vec<u8>, u64) -> Vec<u8>>(
    row_key: Vec<u8>,
    point: Point,
    encode_row_key: F,
) -> bool {
    exists|key: Vec<u8>|
        key@ == point.dimension_key && #[trigger] call_ensures(
            encode_row_key,
            (&key, point.bucket_id),
            row_key,
        )
}

/// The emitted bit is the point, in the row that `encode_row_key` gives it, with the
/// metadata of the checkpoint.
pub open spec fn is_bit_of<F: Fn(&Vec<u8>, u64) -> Vec<u8>>(
    bit: IndexedBit,
    point: Point,
    checkpoint: Checkpoint,
    encode_row_key: F,
) -> bool {
    &&& is_row_key(bit.row_key, point, encode_row_key)
    &&& bit.bucket_id == point.bucket_id
    &&& bit.bit_position == point.bit_position
    &&& bit.checkpoint_seq == checkpoint.sequence_number
    &&& bit.tx_hi_exclusive == checkpoint.network_total_transactions
    &&& bit.timestamp_ms == checkpoint.timestamp_ms
}

/// The emitted bits are the points, in order.
pub open spec fn are_bits_of<F: Fn(&Vec<u8>, u64) -> Vec<u8>>(
    bits: Seq<IndexedBit>,
    points: Seq<Point>,
    checkpoint: Checkpoint,
    encode_row_key: F,
) -> bool {
    &&& bits.len() == points.len()
    &&& forall|i: int|
        0 <= i < bits.len() ==> is_bit_of(#[trigger] bits[i], points[i], checkpoint, encode_row_key)
}

/// What turns checkpoints into the bits of an index.
pub trait Processor: Sized {
    /// The name of the pipeline.
    spec fn pipeline(&self) -> Seq<char>;

    /// The checkpoint can be processed.
    spec fn can_process(&self, checkpoint: Checkpoint) -> bool;

    /// The bits of a checkpoint, in order.
    spec fn points(&self, checkpoint: Checkpoint) -> Seq<Point>;

    /// The name of the pipeline.
    fn name(&self) -> (name: &'static str)
        ensures
            name@ == self.pipeline(),
    ;

    /// Whether [`Self::process`] can be asked for the checkpoint.
    fn can_process_checkpoint(&self, checkpoint: &Checkpoint) -> (can: bool)
        ensures
            can == self.can_process(*checkpoint),
    ;

    /// Emit the bits of a checkpoint. `encode_row_key` gives the key of the row for
    /// the key of a dimension value and a bucket.
    fn process<F: Fn(&Vec<u8>, u64) -> Vec<u8>>(&self, checkpoint: &Checkpoint, encode_row_key: F) -> (bits:
        Vec<IndexedBit>)
        requires
            self.can_process(*checkpoint),
            forall|key: Vec<u8>, bucket_id: u64| call_requires(encode_row_key, (&key, bucket_id)),
        ensures
            are_bits_of(bits@, self.points(*checkpoint), *checkpoint, encode_row_key),
    ;
}

/// Emit the bit at position `seq` of a dimension.
pub(crate) fn emit<F: Fn(&Vec<u8>, u64) -> Vec<u8>>(
    bits: &mut Vec<IndexedBit>,
    table: &BitmapTable,
    seq: u64,
    dim: dimensions::IndexDimension,
    value: &Vec<u8>,
    checkpoint: &Checkpoint,
    encode_row_key: &F,
)
    requires
        table.wf(),
        forall|key: Vec<u8>, bucket_id: u64| call_requires(*encode_row_key, (&key, bucket_id)),
    ensures
        final(bits)@.len() == old(bits)@.len() + 1,
        final(bits)@.drop_last() == old(bits)@,
        is_bit_of(
            final(bits)@.last(),
            point_at(table.bucket_size, seq as int, (dim, value@)),
            *checkpoint,
            *encode_row_key,
        ),
{
    let ghost point = point_at(table.bucket_size, seq as int, (dim, value@));
    let bucket_id: u64 = seq / table.bucket_size;
    let bit_position: u32 = (seq % table.bucket_size) as u32;
    let dim_key = dimensions::encode_dimension_key(dim, value);
    let row_key = encode_row_key(&dim_key, bucket_id);
    proof {
        assert(bucket_id == point.bucket_id);
        assert(call_ensures(*encode_row_key, (&dim_key, point.bucket_id), row_key));
        assert(is_row_key(row_key, point, *encode_row_key));
    }
    bits.push(
        IndexedBit {
            row_key,
            bucket_id,
            bit_position,
            checkpoint_seq: checkpoint.sequence_number,
            tx_hi_exclusive: checkpoint.network_total_transactions,
            timestamp_ms: checkpoint.timestamp_ms,
        },
    );
    assert(bits@.drop_last() =~= old(bits)@);
}

impl IndexedBit {
    /// The bit, for the batch of a [`crate::bigtable::store::bitmap_buffer::BitmapBuffer`].
    pub fn into_value(self) -> (value: index_batch::BitmapIndexValue)
        ensures
            value == (index_batch::BitmapIndexValue {
                row_key: self.row_key,
                bucket_id: self.bucket_id,
                bit_position: self.bit_position,
                checkpoint_seq: self.checkpoint_seq,
                timestamp_ms: self.timestamp_ms,
            }),
    {
        index_batch::BitmapIndexValue {
            row_key: self.row_key,
            bucket_id: self.bucket_id,
            bit_position: self.bit_position,
            checkpoint_seq: self.checkpoint_seq,
            timestamp_ms: self.timestamp_ms,
        }
    }

    /// The bit, as a row of its own, for a [`batch::BitmapIndexBatch`].
    pub fn into_row(self) -> (row: batch::BitmapIndexValue)
        ensures
            row.row_key == self.row_key,
            row@ == (batch::RowView {
                bucket_id: self.bucket_id,
                bits: set![self.bit_position],
                max_cp: self.checkpoint_seq,
                max_ts_ms: self.timestamp_ms,
            }),
    {
        let mut bits = bitmap::new_bitmap();
        bitmap::set_bit(&mut bits, self.bit_position);
        batch::BitmapIndexValue {
            row_key: self.row_key,
            bucket_id: self.bucket_id,
            bitmap: bits,
            max_cp: self.checkpoint_seq,
            max_ts_ms: self.timestamp_ms,
        }
    }
}

/// A position is told by its bucket and where it stands in there.
pub proof fn law_points_tell_their_position(bucket_size: u64, seq: int, dim: Dimension)
    requires
        0 < bucket_size <= u32::MAX,
        0 <= seq <= u64::MAX,
    ensures
        ({
            let point = point_at(bucket_size, seq, dim);
            &&& point.bucket_id * bucket_size + point.bit_position == seq
            &&& point.bit_position < bucket_size
            &&& point.dimension_key == dimensions::dimension_key(dim.0, dim.1)
        }),
{
    let size = bucket_size as int;
    vstd::arithmetic::div_mod::lemma_fundamental_div_mod(seq, size);
    vstd::arithmetic::div_mod::lemma_div_pos_is_pos(seq, size);
    vstd::arithmetic::div_mod::lemma_div_is_ordered_by_denominator(seq, 1, size);
    assert(size * (seq / size) == (seq / size) * size) by (nonlinear_arith);
    assert(seq / 1 == seq);
}

/// What is emitted is what the points say, one bit for each: in the row that
/// `encode_row_key` gives the dimension's key in the point's bucket, at the point's
/// position, with the number, the total and the timestamp of the checkpoint.
pub proof fn law_bits_are_emitted_for_points<F: Fn(&Vec<u8>, u64) -> Vec<u8>>(
    bits: Seq<IndexedBit>,
    points: Seq<Point>,
    checkpoint: Checkpoint,
    encode_row_key: F,
    i: int,
)
    requires
        are_bits_of(bits, points, checkpoint, encode_row_key),
    ensures
        bits.len() == points.len(),
        0 <= i < bits.len() ==> {
            &&& bits[i].bucket_id == points[i].bucket_id
            &&& bits[i].bit_position == points[i].bit_position
            &&& bits[i].checkpoint_seq == checkpoint.sequence_number
            &&& bits[i].tx_hi_exclusive == checkpoint.network_total_transactions
            &&& bits[i].timestamp_ms == checkpoint.timestamp_ms
            &&& exists|key: Vec<u8>|
                key@ == points[i].dimension_key && #[trigger] call_ensures(
                    encode_row_key,
                    (&key, points[i].bucket_id),
                    bits[i].row_key,
                )
        },
{
    if 0 <= i < bits.len() {
        assert(is_bit_of(bits[i], points[i], checkpoint, encode_row_key));
    }
}

} // verus!
