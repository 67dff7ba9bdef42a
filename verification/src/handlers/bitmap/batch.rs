//! The rows of one commit.
//!
//! What the processor emits for each checkpoint is OR'd into a
//! [`BitmapIndexBatch`], row by row. A commit then merges the batch, by reference,
//! into the accumulated state of the pipeline. Merging is idempotent, so a commit
//! that is tried again does no harm.

use roaring::RoaringBitmap;
use vstd::prelude::*;

use crate::bitmap;
use crate::row_map;
use crate::row_map::RowMap;

verus! {

/// Bits for one row of a bitmap index, with the latest checkpoint that
/// contributed to them.
pub struct BitmapIndexValue {
    pub row_key: Vec<u8>,
    pub bucket_id: u64,
    pub bitmap: RoaringBitmap,
    /// The latest contributing checkpoint.
    pub max_cp: u64,
    /// That checkpoint's timestamp in milliseconds. It versions the row's cell, so
    /// a later write supersedes an earlier one.
    pub max_ts_ms: u64,
}

/// A row of a bitmap index, without its key.
#[verifier::ext_equal]
pub struct RowView {
    pub bucket_id: u64,
    pub bits: Set<u32>,
    pub max_cp: u64,
    pub max_ts_ms: u64,
}

impl View for BitmapIndexValue {
    type V = RowView;

    open spec fn view(&self) -> RowView {
        RowView {
            bucket_id: self.bucket_id,
            bits: bitmap::bitmap_bits(self.bitmap),
            max_cp: self.max_cp,
            max_ts_ms: self.max_ts_ms,
        }
    }
}

/// `row` after `incoming` contributed to it: the bits of both, and the timestamp
/// of the later checkpoint.
pub open spec fn absorbed(row: RowView, incoming: RowView) -> RowView {
    let later = incoming.max_cp > row.max_cp;
    RowView {
        bucket_id: row.bucket_id,
        bits: row.bits.union(incoming.bits),
        max_cp: if later { incoming.max_cp } else { row.max_cp },
        max_ts_ms: if later { incoming.max_ts_ms } else { row.max_ts_ms },
    }
}

/// `rows` after `incoming` contributed to the row at `key`. Where there is none,
/// `incoming` is the row.
pub open spec fn absorbed_at(
    rows: Map<Seq<u8>, RowView>,
    key: Seq<u8>,
    incoming: RowView,
) -> Map<Seq<u8>, RowView> {
    rows.insert(
        key,
        if rows.contains_key(key) {
            absorbed(rows[key], incoming)
        } else {
            incoming
        },
    )
}

/// `rows` after every value of a list contributed to its row, in order.
pub open spec fn extended(
    rows: Map<Seq<u8>, RowView>,
    values: Seq<BitmapIndexValue>,
) -> Map<Seq<u8>, RowView>
    decreases values.len(),
{
    if values.len() == 0 {
        rows
    } else {
        absorbed_at(extended(rows, values.drop_last()), values.last().row_key@, values.last()@)
    }
}

/// The rows of a map of values.
pub open spec fn row_views(rows: Map<Seq<u8>, BitmapIndexValue>) -> Map<Seq<u8>, RowView> {
    rows.map_values(|row: BitmapIndexValue| row@)
}

/// Every row stands at its own key.
pub open spec fn keyed(rows: Map<Seq<u8>, BitmapIndexValue>) -> bool {
    forall|key: Seq<u8>| #[trigger] rows.contains_key(key) ==> rows[key].row_key@ == key
}

/// Let `incoming` contribute to `row`.
fn absorb(row: &mut BitmapIndexValue, incoming: &BitmapIndexValue)
    ensures
        final(row)@ == absorbed(old(row)@, incoming@),
        final(row).row_key == old(row).row_key,
{
    bitmap::or_bits(&mut row.bitmap, &incoming.bitmap);
    if incoming.max_cp > row.max_cp {
        row.max_cp = incoming.max_cp;
        row.max_ts_ms = incoming.max_ts_ms;
    }
}

/// Let `incoming` contribute to its row, and say whether the row's bits grew.
pub(crate) fn absorb_at(rows: &mut RowMap<BitmapIndexValue>, incoming: &BitmapIndexValue) -> (grew: bool)
    requires
        old(rows).wf(),
        keyed(old(rows)@),
    ensures
        final(rows).wf(),
        keyed(final(rows)@),
        row_views(final(rows)@) == absorbed_at(
            row_views(old(rows)@),
            incoming.row_key@,
            incoming@,
        ),
        grew == !incoming@.bits.subset_of(
            if old(rows)@.contains_key(incoming.row_key@) {
                old(rows)@[incoming.row_key@]@.bits
            } else {
                Set::empty()
            },
        ),
{
    let ghost before = rows@;
    let ghost key = incoming.row_key@;
    if !rows.contains_key(&incoming.row_key) {
        let fresh = BitmapIndexValue {
            row_key: row_map::copy_bytes(&incoming.row_key),
            bucket_id: incoming.bucket_id,
            bitmap: bitmap::new_bitmap(),
            max_cp: incoming.max_cp,
            max_ts_ms: incoming.max_ts_ms,
        };
        rows.insert(row_map::copy_bytes(&incoming.row_key), fresh);
    }
    let mut grew = false;
    match rows.get_mut(&incoming.row_key) {
        Some(row) => {
            let bits_before: u64 = bitmap::count_bits(&row.bitmap);
            proof {
                bitmap::lemma_union_grows(row@.bits, incoming@.bits);
            }
            absorb(row, incoming);
            let bits_after: u64 = bitmap::count_bits(&row.bitmap);
            grew = bits_after > bits_before;
        },
        None => {},
    }
    proof {
        assert(Set::<u32>::empty().union(incoming@.bits) =~= incoming@.bits);
        assert(row_views(rows@) =~= absorbed_at(row_views(before), key, incoming@));
    }
    grew
}

/// The rows of one commit.
pub struct BitmapIndexBatch {
    rows: RowMap<BitmapIndexValue>,
}

impl View for BitmapIndexBatch {
    type V = Map<Seq<u8>, RowView>;

    closed spec fn view(&self) -> Map<Seq<u8>, RowView> {
        row_views(self.rows@)
    }
}

impl Default for BitmapIndexBatch {
    /// A batch without rows.
    fn default() -> (batch: Self)
        ensures
            batch.wf(),
            batch@ == Map::<Seq<u8>, RowView>::empty(),
    {
        let batch = BitmapIndexBatch { rows: RowMap::new() };
        assert(batch@ =~= Map::<Seq<u8>, RowView>::empty());
        batch
    }
}

impl BitmapIndexBatch {
    /// Every row stands at its own key.
    pub closed spec fn wf(&self) -> bool {
        &&& self.rows.wf()
        &&& keyed(self.rows@)
    }

    /// Let every value contribute to its row.
    pub fn extend(&mut self, values: Vec<BitmapIndexValue>)
        requires
            old(self).wf(),
        ensures
            final(self).wf(),
            final(self)@ == extended(old(self)@, values@),
    {
        let ghost before = self@;
        let mut i: usize = 0;
        while i < values.len()
            invariant
                i <= values.len(),
                self.wf(),
                self@ == extended(before, values@.take(i as int)),
            decreases values.len() - i,
        {
            absorb_at(&mut self.rows, &values[i]);
            assert(values@.take(i + 1).drop_last() =~= values@.take(i as int));
            i = i + 1;
        }
        assert(values@.take(i as int) =~= values@);
    }

    /// Whether the batch has no row.
    pub fn is_empty(&self) -> (empty: bool)
        requires
            self.wf(),
        ensures
            empty == (self@ == Map::<Seq<u8>, RowView>::empty()),
    {
        proof {
            self.rows.lemma_walk();
            if self.rows@ == Map::<Seq<u8>, BitmapIndexValue>::empty() {
                assert(self@ =~= Map::<Seq<u8>, RowView>::empty());
            } else {
                assert(self.rows@ !~= Map::<Seq<u8>, BitmapIndexValue>::empty());
                assert(self.rows.keys().len() > 0) by {
                    if self.rows.keys().len() == 0 {
                        assert(self.rows@ =~= Map::<Seq<u8>, BitmapIndexValue>::empty());
                    }
                }
                assert(self@.contains_key(self.rows.keys()[0]));
            }
        }
        self.rows.is_empty()
    }

    /// The rows, by key.
    pub fn rows(&self) -> (rows: &RowMap<BitmapIndexValue>)
        requires
            self.wf(),
        ensures
            rows.wf(),
            keyed(rows@),
            row_views(rows@) == self@,
    {
        &self.rows
    }
}

/// The rows hold the bit.
pub open spec fn holds(rows: Map<Seq<u8>, RowView>, key: Seq<u8>, bit: u32) -> bool {
    rows.contains_key(key) && rows[key].bits.contains(bit)
}

/// The value contributes the bit.
pub open spec fn brings(value: BitmapIndexValue, key: Seq<u8>, bit: u32) -> bool {
    value.row_key@ == key && value@.bits.contains(bit)
}

/// A batch misses nothing and makes nothing up: it holds exactly the bits that it held
/// before and the bits of the values.
pub proof fn law_batch_takes_every_bit(
    rows: Map<Seq<u8>, RowView>,
    values: Seq<BitmapIndexValue>,
    key: Seq<u8>,
    bit: u32,
)
    ensures
        holds(extended(rows, values), key, bit) <==> holds(rows, key, bit) || exists|i: int|
            0 <= i < values.len() && #[trigger] brings(values[i], key, bit),
    decreases values.len(),
{
    if values.len() > 0 {
        let front = values.drop_last();
        law_batch_takes_every_bit(rows, front, key, bit);
        if exists|i: int| 0 <= i < front.len() && #[trigger] brings(front[i], key, bit) {
            let i = choose|i: int| 0 <= i < front.len() && #[trigger] brings(front[i], key, bit);
            assert(brings(values[i], key, bit));
        }
        if brings(values.last(), key, bit) {
            assert(brings(values[values.len() - 1], key, bit));
        }
        if exists|i: int| 0 <= i < values.len() && #[trigger] brings(values[i], key, bit) {
            let i = choose|i: int| 0 <= i < values.len() && #[trigger] brings(values[i], key, bit);
            if i < front.len() {
                assert(brings(front[i], key, bit));
            }
        }
    }
}

/// The value contributes to the row and dates it.
pub open spec fn dates(value: BitmapIndexValue, key: Seq<u8>, row: RowView) -> bool {
    value.row_key@ == key && value.max_cp == row.max_cp && value.max_ts_ms == row.max_ts_ms
}

/// A row that a batch makes is dated by the latest checkpoint that contributed to it:
/// its timestamp is that of a contributing value, and no contributing value is of a
/// later checkpoint.
pub proof fn law_rows_are_dated_by_their_latest_checkpoint(values: Seq<BitmapIndexValue>, key: Seq<u8>)
    requires
        extended(Map::empty(), values).contains_key(key),
    ensures
        exists|i: int|
            0 <= i < values.len() && #[trigger] dates(values[i], key, extended(Map::empty(), values)[key]),
        forall|i: int|
            0 <= i < values.len() && (#[trigger] values[i]).row_key@ == key ==> values[i].max_cp <= extended(
                Map::empty(),
                values,
            )[key].max_cp,
    decreases values.len(),
{
    if values.len() > 0 {
        let front = values.drop_last();
        let last = values.last();
        let before = extended(Map::empty(), front);
        let after = extended(Map::empty(), values);
        if before.contains_key(key) {
            law_rows_are_dated_by_their_latest_checkpoint(front, key);
            let i = choose|i: int| 0 <= i < front.len() && #[trigger] dates(front[i], key, before[key]);
            if after[key].max_cp == before[key].max_cp && after[key].max_ts_ms == before[key].max_ts_ms {
                assert(dates(values[i], key, after[key]));
            } else {
                assert(dates(values[values.len() - 1], key, after[key]));
            }
            assert forall|i: int| 0 <= i < values.len() && (#[trigger] values[i]).row_key@ == key implies values[i].max_cp
                <= after[key].max_cp by {
                if i < front.len() {
                    assert(front[i] == values[i]);
                }
            }
        } else {
            assert(dates(values[values.len() - 1], key, after[key]));
            assert forall|i: int| 0 <= i < values.len() && (#[trigger] values[i]).row_key@ == key implies values[i].max_cp
                <= after[key].max_cp by {
                if i < front.len() {
                    lemma_rows_are_made(front, i);
                    assert(front[i] == values[i]);
                }
            }
        }
    }
}

proof fn lemma_rows_are_made(values: Seq<BitmapIndexValue>, i: int)
    requires
        0 <= i < values.len(),
    ensures
        extended(Map::empty(), values).contains_key(values[i].row_key@),
    decreases values.len(),
{
    if i < values.len() - 1 {
        lemma_rows_are_made(values.drop_last(), i);
    }
}

/// A batch has the rows that it had and those of the values, and no others.
pub proof fn law_batch_has_the_rows_of_the_values(
    rows: Map<Seq<u8>, RowView>,
    values: Seq<BitmapIndexValue>,
    key: Seq<u8>,
)
    ensures
        extended(rows, values).contains_key(key) <==> rows.contains_key(key) || exists|i: int|
            0 <= i < values.len() && (#[trigger] values[i]).row_key@ == key,
        (forall|i: int| 0 <= i < values.len() ==> (#[trigger] values[i]).row_key@ != key) && rows.contains_key(key)
            ==> extended(rows, values)[key] == rows[key],
    decreases values.len(),
{
    if values.len() > 0 {
        let front = values.drop_last();
        law_batch_has_the_rows_of_the_values(rows, front, key);
        assert(values.last() == values[values.len() - 1]);
        assert forall|i: int| 0 <= i < front.len() implies front[i] == #[trigger] values[i] by {}
        if exists|i: int| 0 <= i < front.len() && (#[trigger] front[i]).row_key@ == key {
            let i = choose|i: int| 0 <= i < front.len() && (#[trigger] front[i]).row_key@ == key;
            assert(values[i].row_key@ == key);
        }
        if exists|i: int| 0 <= i < values.len() && (#[trigger] values[i]).row_key@ == key {
            let i = choose|i: int| 0 <= i < values.len() && (#[trigger] values[i]).row_key@ == key;
            if i < front.len() {
                assert(front[i].row_key@ == key);
            }
        }
    }
}

/// A row stays in its bucket, and one that is new is in that of the first value of it.
pub proof fn law_rows_stay_in_their_bucket(
    rows: Map<Seq<u8>, RowView>,
    values: Seq<BitmapIndexValue>,
    key: Seq<u8>,
    i: int,
)
    requires
        rows.contains_key(key) || (0 <= i < values.len() && values[i].row_key@ == key && forall|j: int|
            0 <= j < i ==> (#[trigger] values[j]).row_key@ != key),
    ensures
        rows.contains_key(key) ==> extended(rows, values)[key].bucket_id == rows[key].bucket_id,
        !rows.contains_key(key) ==> extended(rows, values)[key].bucket_id == values[i].bucket_id,
    decreases values.len(),
{
    if values.len() > 0 {
        let front = values.drop_last();
        law_batch_has_the_rows_of_the_values(rows, front, key);
        if rows.contains_key(key) || i < front.len() {
            if !rows.contains_key(key) {
                assert(front[i].row_key@ == key);
            }
            law_rows_stay_in_their_bucket(rows, front, key, i);
        } else {
            assert forall|j: int| 0 <= j < front.len() implies (#[trigger] front[j]).row_key@ != key by {
                assert(values[j] == front[j]);
            }
        }
    }
}

/// A row is dated by the first contribution of the latest checkpoint: the row as it was,
/// if no value is of a later checkpoint, or else the first value that no other one is
/// later than.
pub proof fn law_the_first_of_the_latest_checkpoint_dates_a_row(
    rows: Map<Seq<u8>, RowView>,
    values: Seq<BitmapIndexValue>,
    key: Seq<u8>,
    i: int,
)
    ensures
        rows.contains_key(key) && (forall|j: int|
            0 <= j < values.len() && (#[trigger] values[j]).row_key@ == key ==> values[j].max_cp <= rows[key].max_cp)
            ==> {
            &&& extended(rows, values)[key].max_cp == rows[key].max_cp
            &&& extended(rows, values)[key].max_ts_ms == rows[key].max_ts_ms
        },
        0 <= i < values.len() && values[i].row_key@ == key && (rows.contains_key(key) ==> rows[key].max_cp
            < values[i].max_cp) && (forall|j: int|
            0 <= j < i && (#[trigger] values[j]).row_key@ == key ==> values[j].max_cp < values[i].max_cp) && (forall|
            j: int,
        |
            i < j < values.len() && (#[trigger] values[j]).row_key@ == key ==> values[j].max_cp <= values[i].max_cp)
            ==> {
            &&& extended(rows, values)[key].max_cp == values[i].max_cp
            &&& extended(rows, values)[key].max_ts_ms == values[i].max_ts_ms
        },
    decreases values.len(),
{
    if values.len() > 0 {
        let front = values.drop_last();
        law_the_first_of_the_latest_checkpoint_dates_a_row(rows, front, key, i);
        law_batch_has_the_rows_of_the_values(rows, front, key);
        assert(values.last() == values[values.len() - 1]);
        assert forall|j: int| 0 <= j < front.len() implies #[trigger] front[j] == values[j] by {}
        if 0 <= i == values.len() - 1 && values[i].row_key@ == key && extended(rows, front).contains_key(key) {
            lemma_row_is_dated_by_a_part(rows, front, key);
        }
        if 0 <= i < front.len() && values[i].row_key@ == key {
            assert(front[i].row_key@ == key);
        }
    }
}

/// A row has the checkpoint that it had, or that of one of the values.
proof fn lemma_row_is_dated_by_a_part(rows: Map<Seq<u8>, RowView>, values: Seq<BitmapIndexValue>, key: Seq<u8>)
    requires
        extended(rows, values).contains_key(key),
    ensures
        (rows.contains_key(key) && extended(rows, values)[key].max_cp == rows[key].max_cp) || exists|j: int|
            0 <= j < values.len() && (#[trigger] values[j]).row_key@ == key && values[j].max_cp == extended(
                rows,
                values,
            )[key].max_cp,
    decreases values.len(),
{
    if values.len() > 0 {
        let front = values.drop_last();
        let after = extended(rows, values)[key];
        assert(values.last() == values[values.len() - 1]);
        if extended(rows, front).contains_key(key) {
            lemma_row_is_dated_by_a_part(rows, front, key);
            let before = extended(rows, front)[key];
            if after.max_cp == before.max_cp && !(rows.contains_key(key) && before.max_cp == rows[key].max_cp) {
                let j = choose|j: int|
                    0 <= j < front.len() && (#[trigger] front[j]).row_key@ == key && front[j].max_cp == before.max_cp;
                assert(values[j] == front[j]);
            }
        }
    }
}

/// What a row holds is what the value holds.
pub proof fn law_rows_are_what_the_values_hold(rows: Map<Seq<u8>, BitmapIndexValue>, key: Seq<u8>)
    ensures
        row_views(rows).contains_key(key) == rows.contains_key(key),
        rows.contains_key(key) ==> {
            &&& row_views(rows)[key].bucket_id == rows[key].bucket_id
            &&& row_views(rows)[key].bits == bitmap::bitmap_bits(rows[key].bitmap)
            &&& row_views(rows)[key].max_cp == rows[key].max_cp
            &&& row_views(rows)[key].max_ts_ms == rows[key].max_ts_ms
        },
        keyed(rows) && rows.contains_key(key) ==> rows[key].row_key@ == key,
{
}

} // verus!
