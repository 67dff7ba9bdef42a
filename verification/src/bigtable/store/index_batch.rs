//! The bits of one commit, on their way to the buffer.

use std::collections::BTreeMap;

use roaring::RoaringBitmap;
use vstd::prelude::*;

use crate::bitmap;
use crate::row_map;
use crate::row_map::RowMap;

verus! {

/// One bit to set in a row of a bitmap index, with the checkpoint that it comes
/// from.
pub struct BitmapIndexValue {
    pub row_key: Vec<u8>,
    pub bucket_id: u64,
    pub bit_position: u32,
    pub checkpoint_seq: u64,
    /// The checkpoint's timestamp in milliseconds. It versions the row's cell, so
    /// a later write supersedes an earlier one.
    pub timestamp_ms: u64,
}

/// The bits that a batch contributes to one row.
pub struct BatchedRow {
    pub bucket_id: u64,
    pub bitmap: RoaringBitmap,
    /// The latest contributing checkpoint.
    pub max_cp: u64,
}

/// What a [`BatchedRow`] holds.
#[verifier::ext_equal]
pub struct BatchedView {
    pub bucket_id: u64,
    pub bits: Set<u32>,
    pub max_cp: u64,
}

impl View for BatchedRow {
    type V = BatchedView;

    open spec fn view(&self) -> BatchedView {
        BatchedView {
            bucket_id: self.bucket_id,
            bits: bitmap::bitmap_bits(self.bitmap),
            max_cp: self.max_cp,
        }
    }
}

/// The rows of a batch, with the timestamps of the checkpoints that they come from.
#[verifier::ext_equal]
pub struct MessageView {
    pub rows: Map<Seq<u8>, BatchedView>,
    pub cps: Map<u64, u64>,
}

impl MessageView {
    /// No row and no checkpoint.
    pub open spec fn empty() -> Self {
        MessageView { rows: Map::empty(), cps: Map::empty() }
    }

    /// The timestamp of each row's latest checkpoint is known.
    pub open spec fn dated(self) -> bool {
        forall|key: Seq<u8>| #[trigger]
            self.rows.contains_key(key) ==> self.cps.contains_key(self.rows[key].max_cp)
    }

    /// The batch with one more bit. A checkpoint keeps the first timestamp that was
    /// seen for it.
    pub open spec fn with_value(self, value: BitmapIndexValue) -> Self {
        let key = value.row_key@;
        let seq = value.checkpoint_seq;
        MessageView {
            rows: self.rows.insert(
                key,
                if self.rows.contains_key(key) {
                    let row = self.rows[key];
                    BatchedView {
                        bucket_id: row.bucket_id,
                        bits: row.bits.insert(value.bit_position),
                        max_cp: if seq > row.max_cp { seq } else { row.max_cp },
                    }
                } else {
                    BatchedView {
                        bucket_id: value.bucket_id,
                        bits: set![value.bit_position],
                        max_cp: seq,
                    }
                },
            ),
            cps: if self.cps.contains_key(seq) {
                self.cps
            } else {
                self.cps.insert(seq, value.timestamp_ms)
            },
        }
    }

    /// The batch with the bits of every value of a list, in order.
    pub open spec fn extended(self, values: Seq<BitmapIndexValue>) -> Self
        decreases values.len(),
    {
        if values.len() == 0 {
            self
        } else {
            self.extended(values.drop_last()).with_value(values.last())
        }
    }
}

/// What the rows of a map hold.
pub open spec fn batched_views(rows: Map<Seq<u8>, BatchedRow>) -> Map<Seq<u8>, BatchedView> {
    rows.map_values(|row: BatchedRow| row@)
}

/// A batch on its way from a commit to the flush that merges it.
pub struct BatchMessage {
    pub rows: RowMap<BatchedRow>,
    /// The timestamp in milliseconds of each checkpoint that contributed to `rows`.
    pub cps: BTreeMap<u64, u64>,
}

impl View for BatchMessage {
    type V = MessageView;

    open spec fn view(&self) -> MessageView {
        MessageView { rows: batched_views(self.rows@), cps: self.cps@ }
    }
}

impl BatchMessage {
    /// The timestamp of each row's latest checkpoint is known.
    pub open spec fn wf(&self) -> bool {
        &&& self.rows.wf()
        &&& self@.dated()
    }
}

/// The rows of one commit, as they are put together.
pub struct BitmapIndexBatch {
    rows: RowMap<BatchedRow>,
    cps: BTreeMap<u64, u64>,
}

impl View for BitmapIndexBatch {
    type V = MessageView;

    closed spec fn view(&self) -> MessageView {
        MessageView { rows: batched_views(self.rows@), cps: self.cps@ }
    }
}

impl Default for BitmapIndexBatch {
    /// A batch without rows.
    fn default() -> (batch: Self)
        ensures
            batch.wf(),
            batch@ == MessageView::empty(),
    {
        let batch = BitmapIndexBatch { rows: RowMap::new(), cps: BTreeMap::new() };
        assert(batch@ =~= MessageView::empty());
        batch
    }
}

impl BitmapIndexBatch {
    /// The timestamp of each row's latest checkpoint is known.
    pub closed spec fn wf(&self) -> bool {
        &&& self.rows.wf()
        &&& self@.dated()
    }

    /// Set the bit of one value.
    fn set(&mut self, value: &BitmapIndexValue)
        requires
            old(self).wf(),
        ensures
            final(self).wf(),
            final(self)@ == old(self)@.with_value(*value),
    {
        let ghost before = self@;
        let ghost key = value.row_key@;
        if !self.cps.contains_key(&value.checkpoint_seq) {
            self.cps.insert(value.checkpoint_seq, value.timestamp_ms);
        }
        if !self.rows.contains_key(&value.row_key) {
            self.rows.insert(
                row_map::copy_bytes(&value.row_key),
                BatchedRow {
                    bucket_id: value.bucket_id,
                    bitmap: bitmap::new_bitmap(),
                    max_cp: 0,
                },
            );
        }
        match self.rows.get_mut(&value.row_key) {
            Some(row) => {
                bitmap::set_bit(&mut row.bitmap, value.bit_position);
                if value.checkpoint_seq > row.max_cp {
                    row.max_cp = value.checkpoint_seq;
                }
            },
            None => {},
        }
        proof {
            assert(Set::<u32>::empty().insert(value.bit_position) =~= set![value.bit_position]);
            assert(self@.rows =~= before.with_value(*value).rows);
            assert(self@.cps =~= before.with_value(*value).cps);
        }
    }

    /// Set the bit of every value.
    pub fn extend(&mut self, values: Vec<BitmapIndexValue>)
        requires
            old(self).wf(),
        ensures
            final(self).wf(),
            final(self)@ == old(self)@.extended(values@),
    {
        let ghost before = self@;
        let mut i: usize = 0;
        while i < values.len()
            invariant
                i <= values.len(),
                self.wf(),
                self@ == before.extended(values@.take(i as int)),
            decreases values.len() - i,
        {
            self.set(&values[i]);
            assert(values@.take(i + 1).drop_last() =~= values@.take(i as int));
            i = i + 1;
        }
        assert(values@.take(i as int) =~= values@);
    }

    /// Take everything out, ready to be sent.
    pub fn take(&mut self) -> (message: BatchMessage)
        requires
            old(self).wf(),
        ensures
            message.wf(),
            message@ == old(self)@,
            final(self).wf(),
            final(self)@ == MessageView::empty(),
    {
        let mut rows: RowMap<BatchedRow> = RowMap::new();
        let mut cps: BTreeMap<u64, u64> = BTreeMap::new();
        std::mem::swap(&mut self.rows, &mut rows);
        std::mem::swap(&mut self.cps, &mut cps);
        assert(self@ =~= MessageView::empty());
        BatchMessage { rows, cps }
    }
}

/// The batch holds the bit.
pub open spec fn holds(message: MessageView, key: Seq<u8>, bit: u32) -> bool {
    message.rows.contains_key(key) && message.rows[key].bits.contains(bit)
}

/// The value is that bit.
pub open spec fn brings(value: BitmapIndexValue, key: Seq<u8>, bit: u32) -> bool {
    value.row_key@ == key && value.bit_position == bit
}

/// A batch misses nothing and makes nothing up: it holds exactly the bits that it held
/// before and the bits of the values.
pub proof fn law_batch_takes_every_bit(
    message: MessageView,
    values: Seq<BitmapIndexValue>,
    key: Seq<u8>,
    bit: u32,
)
    ensures
        holds(message.extended(values), key, bit) <==> holds(message, key, bit) || exists|i: int|
            0 <= i < values.len() && #[trigger] brings(values[i], key, bit),
    decreases values.len(),
{
    if values.len() > 0 {
        let front = values.drop_last();
        law_batch_takes_every_bit(message, front, key, bit);
        if exists|i: int| 0 <= i < front.len() && #[trigger] brings(front[i], key, bit) {
            let i = choose|i: int| 0 <= i < front.len() && #[trigger] brings(front[i], key, bit);
            assert(brings(values[i], key, bit));
        }
        if brings(values.last(), key, bit) {
            assert(brings(values[values.len() - 1], key, bit));
        }
        if exists|i: int| 0 <= i < values.len() && #[trigger] brings(values[i], key, bit) {
            let i = choose|i: int| 0 <= i < values.len() && #[trigger] brings(values[i], key, bit);
            if i < front.len() {
                assert(brings(front[i], key, bit));
            }
        }
    }
}

/// A batch has the rows that it had and those of the values, and no others, and those
/// that no value is of stay as they were.
pub proof fn law_batch_has_the_rows_of_the_values(
    message: MessageView,
    values: Seq<BitmapIndexValue>,
    key: Seq<u8>,
)
    ensures
        message.extended(values).rows.contains_key(key) <==> message.rows.contains_key(key) || exists|i: int|
            0 <= i < values.len() && (#[trigger] values[i]).row_key@ == key,
        (forall|i: int| 0 <= i < values.len() ==> (#[trigger] values[i]).row_key@ != key)
            && message.rows.contains_key(key) ==> message.extended(values).rows[key] == message.rows[key],
    decreases values.len(),
{
    if values.len() > 0 {
        let front = values.drop_last();
        law_batch_has_the_rows_of_the_values(message, front, key);
        assert(values.last() == values[values.len() - 1]);
        assert forall|i: int| 0 <= i < front.len() implies front[i] == #[trigger] values[i] by {}
        if exists|i: int| 0 <= i < front.len() && (#[trigger] front[i]).row_key@ == key {
            let i = choose|i: int| 0 <= i < front.len() && (#[trigger] front[i]).row_key@ == key;
            assert(values[i].row_key@ == key);
        }
        if exists|i: int| 0 <= i < values.len() && (#[trigger] values[i]).row_key@ == key {
            let i = choose|i: int| 0 <= i < values.len() && (#[trigger] values[i]).row_key@ == key;
            if i < front.len() {
                assert(front[i].row_key@ == key);
            }
        }
    }
}

/// A row stays in its bucket, and one that is new is in that of the first value of it.
pub proof fn law_rows_stay_in_their_bucket(
    message: MessageView,
    values: Seq<BitmapIndexValue>,
    key: Seq<u8>,
    i: int,
)
    requires
        message.rows.contains_key(key) || (0 <= i < values.len() && values[i].row_key@ == key && forall|j: int|
            0 <= j < i ==> (#[trigger] values[j]).row_key@ != key),
    ensures
        message.rows.contains_key(key) ==> message.extended(values).rows[key].bucket_id
            == message.rows[key].bucket_id,
        !message.rows.contains_key(key) ==> message.extended(values).rows[key].bucket_id == values[i].bucket_id,
    decreases values.len(),
{
    if values.len() > 0 {
        let front = values.drop_last();
        law_batch_has_the_rows_of_the_values(message, front, key);
        if message.rows.contains_key(key) || i < front.len() {
            if !message.rows.contains_key(key) {
                assert(front[i].row_key@ == key);
            }
            law_rows_stay_in_their_bucket(message, front, key, i);
        } else {
            assert forall|j: int| 0 <= j < front.len() implies (#[trigger] front[j]).row_key@ != key by {
                assert(values[j] == front[j]);
            }
        }
    }
}

/// A row is of the latest checkpoint that contributed to it: none that contributed is
/// later, and the row had it before or a value has it.
pub proof fn law_rows_are_of_the_latest_checkpoint(
    message: MessageView,
    values: Seq<BitmapIndexValue>,
    key: Seq<u8>,
)
    requires
        message.extended(values).rows.contains_key(key),
    ensures
        ({
            let max_cp = message.extended(values).rows[key].max_cp;
            &&& message.rows.contains_key(key) ==> message.rows[key].max_cp <= max_cp
            &&& forall|i: int|
                0 <= i < values.len() && (#[trigger] values[i]).row_key@ == key ==> values[i].checkpoint_seq <= max_cp
            &&& (message.rows.contains_key(key) && message.rows[key].max_cp == max_cp) || exists|i: int|
                0 <= i < values.len() && (#[trigger] values[i]).row_key@ == key && values[i].checkpoint_seq == max_cp
        }),
    decreases values.len(),
{
    if values.len() > 0 {
        let front = values.drop_last();
        let after = message.extended(values).rows[key];
        assert(values.last() == values[values.len() - 1]);
        law_batch_has_the_rows_of_the_values(message, front, key);
        assert forall|i: int| 0 <= i < front.len() implies #[trigger] values[i] == front[i] by {}
        if message.extended(front).rows.contains_key(key) {
            law_rows_are_of_the_latest_checkpoint(message, front, key);
            let before = message.extended(front).rows[key];
            if after.max_cp == before.max_cp && !(message.rows.contains_key(key) && message.rows[key].max_cp
                == before.max_cp) {
                let i = choose|i: int|
                    0 <= i < front.len() && (#[trigger] front[i]).row_key@ == key && front[i].checkpoint_seq
                        == before.max_cp;
                assert(values[i] == front[i]);
            }
        } else {
            assert forall|i: int| 0 <= i < values.len() && (#[trigger] values[i]).row_key@ == key implies values[i].checkpoint_seq
                <= after.max_cp by {
                if i < front.len() {
                    assert(front[i].row_key@ == key);
                }
            }
        }
    }
}

/// A checkpoint has the timestamp that it had, or else that of the first value of it. No
/// checkpoint is dated but for these.
pub proof fn law_checkpoints_keep_their_first_timestamp(
    message: MessageView,
    values: Seq<BitmapIndexValue>,
    cp: u64,
    i: int,
)
    ensures
        message.extended(values).cps.contains_key(cp) <==> message.cps.contains_key(cp) || exists|j: int|
            0 <= j < values.len() && (#[trigger] values[j]).checkpoint_seq == cp,
        message.cps.contains_key(cp) ==> message.extended(values).cps[cp] == message.cps[cp],
        !message.cps.contains_key(cp) && 0 <= i < values.len() && values[i].checkpoint_seq == cp && (forall|j: int|
            0 <= j < i ==> (#[trigger] values[j]).checkpoint_seq != cp) ==> message.extended(values).cps[cp]
            == values[i].timestamp_ms,
    decreases values.len(),
{
    if values.len() > 0 {
        let front = values.drop_last();
        law_checkpoints_keep_their_first_timestamp(message, front, cp, i);
        assert(values.last() == values[values.len() - 1]);
        assert forall|j: int| 0 <= j < front.len() implies #[trigger] front[j] == values[j] by {}
        if exists|j: int| 0 <= j < front.len() && (#[trigger] front[j]).checkpoint_seq == cp {
            let j = choose|j: int| 0 <= j < front.len() && (#[trigger] front[j]).checkpoint_seq == cp;
            assert(values[j].checkpoint_seq == cp);
        }
        if exists|j: int| 0 <= j < values.len() && (#[trigger] values[j]).checkpoint_seq == cp {
            let j = choose|j: int| 0 <= j < values.len() && (#[trigger] values[j]).checkpoint_seq == cp;
            if j < front.len() {
                assert(front[j].checkpoint_seq == cp);
            }
        }
        if 0 <= i < front.len() && values[i].checkpoint_seq == cp {
            assert(front[i].checkpoint_seq == cp);
        }
    }
}

/// What a message holds is what its rows hold.
pub proof fn law_messages_are_what_the_rows_hold(message: BatchMessage, key: Seq<u8>)
    ensures
        message@.rows.contains_key(key) == message.rows@.contains_key(key),
        message.rows@.contains_key(key) ==> {
            &&& message@.rows[key].bucket_id == message.rows@[key].bucket_id
            &&& message@.rows[key].bits == bitmap::bitmap_bits(message.rows@[key].bitmap)
            &&& message@.rows[key].max_cp == message.rows@[key].max_cp
        },
        message@.cps == message.cps@,
{
}

} // verus!
