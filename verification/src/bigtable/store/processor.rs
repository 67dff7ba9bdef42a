//! What a bitmap index asks of the processor that feeds it.

use vstd::prelude::*;

use crate::handlers::bitmap::layout::Processor;

verus! {

/// A processor whose output is an inverted index of bitmaps.
///
/// The index is cut into buckets: a row holds the bits of one dimension in one
/// bucket.
pub trait BitmapIndexProcessor: Processor {
    /// The name of the table.
    spec fn table_name(&self) -> Seq<char>;

    /// The name of the column.
    spec fn column_name(&self) -> Seq<char>;

    /// The number of transactions after which no transaction can contribute to a
    /// bucket any more.
    spec fn sealed_at(&self, bucket_id: u64) -> int;

    /// The bucket is low enough for the computation of [`Self::sealed_at`] to stay
    /// within 64 bits.
    spec fn can_seal(&self, bucket_id: u64) -> bool;

    /// The BigTable table that holds this index.
    fn table(&self) -> (table: &'static str)
        ensures
            table@ == self.table_name(),
    ;

    /// The column qualifier that holds the serialized bitmap.
    fn column(&self) -> (column: &'static str)
        ensures
            column@ == self.column_name(),
    ;

    /// Whether [`Self::seal_tx_hi_exclusive`] can be asked for the bucket.
    fn can_seal_bucket(&self, bucket_id: u64) -> (can: bool)
        ensures
            can == self.can_seal(bucket_id),
    ;

    /// Smallest `tx_hi_exclusive` that, once covered by the persisted committer
    /// watermark's `tx_hi`, guarantees that no future checkpoint can contribute a
    /// bit to the bucket.
    fn seal_tx_hi_exclusive(&self, bucket_id: u64) -> (tx_hi: u64)
        requires
            self.can_seal(bucket_id),
        ensures
            tx_hi == self.sealed_at(bucket_id),
    ;
}

/// The bucket's range of transactions begins below `startup_tx_hi`.
pub open spec fn straddles<P: BitmapIndexProcessor>(processor: P, startup_tx_hi: u64, bucket_id: u64) -> bool {
    if bucket_id == 0 {
        0 < startup_tx_hi
    } else {
        processor.sealed_at((bucket_id - 1) as u64) < startup_tx_hi
    }
}

/// The bucket before `bucket_id`, if any, can be sealed.
pub open spec fn can_find_low_end<P: BitmapIndexProcessor>(processor: P, bucket_id: u64) -> bool {
    bucket_id > 0 ==> processor.can_seal((bucket_id - 1) as u64)
}

/// Whether the bucket's range of transactions contains `startup_tx_hi`. Bucket
/// `B` ranges from where bucket `B - 1` is sealed (from 0 where there is none) to
/// where it is sealed itself. Every bucket that is asked for reaches past
/// `startup_tx_hi`, as replay touches no other, so its low end decides.
pub(crate) fn bucket_straddles_startup<P: BitmapIndexProcessor>(
    processor: &P,
    startup_tx_hi: u64,
    bucket_id: u64,
) -> (straddles: bool)
    requires
        can_find_low_end(*processor, bucket_id),
    ensures
        straddles == self::straddles(*processor, startup_tx_hi, bucket_id),
{
    let bucket_low: u64 = if bucket_id == 0 {
        0
    } else {
        processor.seal_tx_hi_exclusive(bucket_id - 1)
    };
    bucket_low < startup_tx_hi
}

/// A bucket straddles the startup watermark exactly if it begins below it: the first
/// bucket begins at 0, and each other one where the bucket before it is sealed. So it
/// does not depend on where the bucket itself is sealed, and a later watermark is
/// straddled if an earlier one is.
pub proof fn law_buckets_straddle_by_their_low_end<P: BitmapIndexProcessor>(
    processor: P,
    startup_tx_hi: u64,
    later_tx_hi: u64,
    bucket_id: u64,
)
    ensures
        straddles(processor, startup_tx_hi, 0) <==> startup_tx_hi != 0,
        bucket_id < u64::MAX ==> (straddles(processor, startup_tx_hi, (bucket_id + 1) as u64)
            <==> processor.sealed_at(bucket_id) < startup_tx_hi),
        startup_tx_hi <= later_tx_hi && straddles(processor, startup_tx_hi, bucket_id) ==> straddles(
            processor,
            later_tx_hi,
            bucket_id,
        ),
        can_find_low_end(processor, 0),
        bucket_id < u64::MAX ==> can_find_low_end(processor, (bucket_id + 1) as u64) == processor.can_seal(
            bucket_id,
        ),
{
}

} // verus!
