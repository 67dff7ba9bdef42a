//! The buffer in which the bits of a pipeline gather between flushes.
//!
//! Every bitmap has one owner at a time. A commit puts its rows together in a
//! [`BitmapIndexBatch`](crate::bigtable::store::index_batch::BitmapIndexBatch),
//! where values with the same row key merge. It then sends the batch on the
//! buffer's channel. A flush receives what is there and merges it into the
//! canonical rows, which hold every bit that was ever contributed and not yet
//! sealed.
//!
//! ## Correctness
//!
//! The committer watermark only advances to a checkpoint when every commit up to it
//! has sent its batch, and only after a flush. A flush receives everything that was
//! sent, merges it, writes it and returns; so the watermark never runs ahead of the
//! table.
//!
//! A cell keeps one version only, so each flush writes the whole canonical bitmap of
//! a row, not a delta. It is versioned by the timestamp of the latest contributing
//! checkpoint. As that checkpoint never moves back while a row is held, later writes
//! supersede earlier ones, and they are supersets. A row is held until no transaction
//! can contribute to it any more.
//!
//! ## Flushing
//!
//! A flush alternates reads and writes with decisions. The decisions are made here:
//! [`BitmapBuffer::flush_through`] takes what happened and says what to do next. It
//! is first called with [`BufferEvent::Start`].

use std::collections::BTreeMap;

use roaring::RoaringBitmap;
use tokio::sync::mpsc::UnboundedReceiver;
use tokio::sync::mpsc::UnboundedSender;
use vstd::prelude::*;

use crate::bigtable::flush;
use crate::bigtable::flush::FlushAction;
use crate::bigtable::flush::FlushError;
use crate::bigtable::rows;
use crate::bigtable::rows::Entry;
use crate::bigtable::rows::FetchedRow;
use crate::bigtable::store::batch_channel;
use crate::bigtable::store::index_batch;
use crate::bigtable::store::index_batch::BatchMessage;
use crate::bigtable::store::index_batch::BatchedRow;
use crate::bigtable::store::index_batch::BatchedView;
use crate::bigtable::store::index_batch::MessageView;
use crate::bigtable::store::processor;
use crate::bigtable::store::BitmapIndexProcessor;
use crate::bigtable::store::CommitterWatermark;
use crate::bitmap;
use crate::chunks;
use crate::row_map;
use crate::row_map::RowMap;

verus! {

/// Entries per write request.
pub const FLUSH_WRITE_CHUNK_SIZE: usize = 5000;

/// Write requests in flight at a time.
pub const FLUSH_WRITE_CONCURRENCY: usize = 10;

/// What happened during a flush.
pub enum BufferEvent<E> {
    /// The flush begins.
    Start,
    /// The rows of one chunk of [`FlushAction::Load`] were read, or could not be.
    Loaded { keys: Vec<Vec<u8>>, fetched: Result<Vec<FetchedRow>, E> },
    /// Every chunk of [`FlushAction::Load`] was read.
    LoadsDone,
    /// A chunk of [`FlushAction::Write`] could not be written.
    WriteFailed(E),
    /// Every chunk of [`FlushAction::Write`] was written.
    WritesDone,
}

/// The cumulative bits of one row.
struct CanonicalRow {
    bucket_id: u64,
    bitmap: RoaringBitmap,
    max_cp: u64,
    dirty: bool,
    needs_load_from_db: bool,
}

/// A canonical row.
#[verifier::ext_equal]
pub struct CanonicalView {
    pub bucket_id: u64,
    pub bits: Set<u32>,
    /// The latest contributing checkpoint.
    pub max_cp: u64,
    /// Bits were added since the row was last written.
    pub dirty: bool,
    /// An earlier process may have written the row, and it was not loaded yet.
    pub needs_load: bool,
}

impl View for CanonicalRow {
    type V = CanonicalView;

    closed spec fn view(&self) -> CanonicalView {
        CanonicalView {
            bucket_id: self.bucket_id,
            bits: bitmap::bitmap_bits(self.bitmap),
            max_cp: self.max_cp,
            dirty: self.dirty,
            needs_load: self.needs_load_from_db,
        }
    }
}

spec fn canonical_views(rows: Map<Seq<u8>, CanonicalRow>) -> Map<Seq<u8>, CanonicalView> {
    rows.map_values(|row: CanonicalRow| row@)
}

/// What a buffer holds: the batches that were sent and not merged yet, the
/// canonical rows, and the timestamps of the checkpoints that contributed to them.
#[verifier::ext_equal]
pub struct BufferView {
    pub queued: Seq<MessageView>,
    pub canonical: Map<Seq<u8>, CanonicalView>,
    pub cps: Map<u64, u64>,
}

impl BufferView {
    /// The timestamp of each row's latest checkpoint is known.
    pub open spec fn dated(self) -> bool {
        forall|key: Seq<u8>| #[trigger]
            self.canonical.contains_key(key) ==> self.cps.contains_key(self.canonical[key].max_cp)
    }

    /// The canonical row at `key` after `incoming` contributed to it.
    pub open spec fn merged_row<P: BitmapIndexProcessor>(
        self,
        processor: P,
        startup_tx_hi: u64,
        key: Seq<u8>,
        incoming: BatchedView,
    ) -> CanonicalView {
        if self.canonical.contains_key(key) {
            let row = self.canonical[key];
            CanonicalView {
                bits: row.bits.union(incoming.bits),
                max_cp: if incoming.max_cp > row.max_cp { incoming.max_cp } else { row.max_cp },
                dirty: true,
                ..row
            }
        } else {
            CanonicalView {
                bucket_id: incoming.bucket_id,
                bits: incoming.bits,
                max_cp: incoming.max_cp,
                dirty: true,
                needs_load: processor::straddles(processor, startup_tx_hi, incoming.bucket_id),
            }
        }
    }

    /// The buffer after a batch was merged into the canonical rows. Every row of
    /// the batch is dirty. A checkpoint keeps the timestamp that is known for it.
    pub open spec fn merged<P: BitmapIndexProcessor>(
        self,
        processor: P,
        startup_tx_hi: u64,
        message: MessageView,
    ) -> Self {
        BufferView {
            canonical: Map::new(
                |key: Seq<u8>| self.canonical.contains_key(key) || message.rows.contains_key(key),
                |key: Seq<u8>|
                    if message.rows.contains_key(key) {
                        self.merged_row(processor, startup_tx_hi, key, message.rows[key])
                    } else {
                        self.canonical[key]
                    },
            ),
            cps: message.cps.union_prefer_right(self.cps),
            ..self
        }
    }

    /// The buffer after every batch that was sent was merged, in order.
    pub open spec fn drained<P: BitmapIndexProcessor>(self, processor: P, startup_tx_hi: u64) -> Self
        decreases self.queued.len(),
    {
        if self.queued.len() == 0 {
            self
        } else {
            BufferView {
                queued: self.queued.drop_last(),
                ..self
            }.drained(processor, startup_tx_hi).merged(processor, startup_tx_hi, self.queued.last())
        }
    }

    /// The rows to load before a flush writes.
    pub open spec fn to_load(self) -> Set<Seq<u8>> {
        Set::new(
            |key: Seq<u8>|
                self.canonical.contains_key(key) && self.canonical[key].dirty && self.canonical[key].needs_load,
        )
    }

    /// The rows to write.
    pub open spec fn dirty(self) -> Set<Seq<u8>> {
        Set::new(|key: Seq<u8>| self.canonical.contains_key(key) && self.canonical[key].dirty)
    }

    /// The buffer after the rows at `keys` were looked up and `found` was there.
    /// What was found is OR'd into the rows that are still held.
    pub open spec fn loaded(self, keys: Seq<Seq<u8>>, found: Map<Seq<u8>, Set<u32>>) -> Self {
        BufferView {
            canonical: Map::new(
                |key: Seq<u8>| self.canonical.contains_key(key),
                |key: Seq<u8>|
                    CanonicalView {
                        bits: if found.contains_key(key) {
                            self.canonical[key].bits.union(found[key])
                        } else {
                            self.canonical[key].bits
                        },
                        needs_load: self.canonical[key].needs_load && !keys.contains(key),
                        ..self.canonical[key]
                    },
            ),
            ..self
        }
    }

    /// `entries` are what has to be written: one per dirty row, holding the row's
    /// bits, under the timestamp of the latest checkpoint that contributed to it.
    pub open spec fn written_as(self, column: Seq<char>, entries: Seq<Entry>) -> bool {
        let keys = entries.map_values(|entry: Entry| entry.row_key@);
        &&& keys.no_duplicates()
        &&& keys.to_set() == self.dirty()
        &&& forall|i: int| 0 <= i < entries.len() ==> (#[trigger] entries[i]).column@ == column
        &&& forall|i: int|
            0 <= i < entries.len() ==> {
                let row = self.canonical[(#[trigger] entries[i]).row_key@];
                &&& bitmap::stored_bits(entries[i].value@) == Some(row.bits)
                &&& entries[i].timestamp_ms == self.cps[row.max_cp]
            }
    }

    /// The buffer after every row was written. Rows that no transaction from
    /// `tx_hi` on can change are dropped, unless they have to be loaded yet.
    pub open spec fn settled<P: BitmapIndexProcessor>(self, processor: P, tx_hi: u64) -> Self {
        BufferView {
            canonical: Map::new(
                |key: Seq<u8>|
                    self.canonical.contains_key(key) && (self.canonical[key].needs_load
                        || processor.sealed_at(self.canonical[key].bucket_id) > tx_hi),
                |key: Seq<u8>| CanonicalView { dirty: false, ..self.canonical[key] },
            ),
            ..self
        }
    }

    /// The buffer when a flush goes on to write: where there is nothing to write, it is
    /// over, and the buffer is settled.
    pub open spec fn settled_if_clean<P: BitmapIndexProcessor>(self, processor: P, tx_hi: u64) -> Self {
        if self.dirty() == Set::<Seq<u8>>::empty() {
            self.settled(processor, tx_hi)
        } else {
            self
        }
    }

    /// It can be told which rows no transaction can change any more.
    pub open spec fn can_settle<P: BitmapIndexProcessor>(self, processor: P) -> bool {
        forall|key: Seq<u8>| #[trigger]
            self.canonical.contains_key(key) && !self.canonical[key].needs_load ==> processor.can_seal(
                self.canonical[key].bucket_id,
            )
    }
}

/// The action is to write exactly the dirty rows of `state`, in chunks; where there
/// are none, the flush is over.
pub open spec fn writes<E>(action: FlushAction<(), E>, state: BufferView, column: Seq<char>) -> bool {
    if state.dirty() == Set::<Seq<u8>>::empty() {
        action == FlushAction::<(), E>::Done(Ok(()))
    } else {
        &&& action matches FlushAction::Write { entry_count, entry_chunks, concurrency }
        &&& {
            let entries = chunks::contents(entry_chunks@).flatten();
            &&& state.written_as(column, entries)
            &&& entry_count == entries.len()
            &&& chunks::contents(entry_chunks@) == chunks::cut(entries, FLUSH_WRITE_CHUNK_SIZE as nat)
            &&& concurrency == FLUSH_WRITE_CONCURRENCY
        }
    }
}

/// How a buffer's rows are kept and written.
pub struct BufferSettings<P> {
    pub table: &'static str,
    pub column: &'static str,
    /// Knows where a bucket is sealed.
    pub processor: P,
    /// The persisted watermark's `tx_hi` when the buffer was made. Only rows whose
    /// bucket straddles it can have bits in the table that this process has not
    /// seen.
    pub startup_tx_hi: u64,
}

/// The buffer of one pipeline.
pub struct BitmapBuffer<P> {
    settings: BufferSettings<P>,
    sender: UnboundedSender<BatchMessage>,
    receiver: UnboundedReceiver<BatchMessage>,
    canonical: RowMap<CanonicalRow>,
    /// The timestamp in milliseconds of each checkpoint that contributed.
    cps: BTreeMap<u64, u64>,
}

impl<P> View for BitmapBuffer<P> {
    type V = BufferView;

    closed spec fn view(&self) -> BufferView {
        BufferView {
            queued: batch_channel::queued_batches(self.receiver).map_values(
                |message: BatchMessage| message@,
            ),
            canonical: canonical_views(self.canonical@),
            cps: self.cps@,
        }
    }
}

impl<P> BitmapBuffer<P> {
    /// The timestamp of each row's latest checkpoint is known, in the canonical
    /// rows and in each batch that was sent.
    pub closed spec fn wf(&self) -> bool {
        &&& batch_channel::ends_of_one_channel(self.sender, self.receiver)
        &&& forall|i: int|
            0 <= i < batch_channel::queued_batches(self.receiver).len()
                ==> (#[trigger] batch_channel::queued_batches(self.receiver)[i]).wf()
        &&& self.canonical.wf()
        &&& self@.dated()
    }

    /// How the rows are kept and written.
    pub closed spec fn config(&self) -> BufferSettings<P> {
        self.settings
    }
}

impl<P: BitmapIndexProcessor> BitmapBuffer<P> {
    /// An empty buffer.
    pub fn new(table: &'static str, column: &'static str, processor: P, startup_tx_hi: u64) -> (buffer: Self)
        ensures
            buffer.wf(),
            buffer@ == (BufferView {
                queued: Seq::empty(),
                canonical: Map::empty(),
                cps: Map::empty(),
            }),
            buffer.config() == (BufferSettings { table, column, processor, startup_tx_hi }),
    {
        let (sender, receiver) = batch_channel::open_channel();
        let buffer = BitmapBuffer {
            settings: BufferSettings { table, column, processor, startup_tx_hi },
            sender,
            receiver,
            canonical: RowMap::new(),
            cps: BTreeMap::new(),
        };
        assert(buffer@.queued =~= Seq::empty());
        assert(buffer@.canonical =~= Map::empty());
        buffer
    }

    /// An empty buffer, for the table and column of a processor.
    pub fn for_processor(processor: P, startup_tx_hi: u64) -> (buffer: Self)
        ensures
            buffer.wf(),
            buffer@ == (BufferView {
                queued: Seq::empty(),
                canonical: Map::empty(),
                cps: Map::empty(),
            }),
            buffer.config().table@ == processor.table_name(),
            buffer.config().column@ == processor.column_name(),
            buffer.config().processor == processor,
            buffer.config().startup_tx_hi == startup_tx_hi,
    {
        let table = processor.table();
        let column = processor.column();
        Self::new(table, column, processor, startup_tx_hi)
    }

    /// How the rows are kept and written.
    pub fn settings(&self) -> (settings: &BufferSettings<P>)
        ensures
            *settings == self.config(),
    {
        &self.settings
    }

    /// Whether a canonical row is held at `row_key`.
    pub fn contains_row(&self, row_key: &[u8]) -> (held: bool)
        requires
            self.wf(),
        ensures
            held == self@.canonical.contains_key(row_key@),
    {
        self.canonical.contains_key(row_key)
    }

    /// Queue a batch for the next flush to merge.
    pub fn send(&mut self, message: BatchMessage)
        requires
            old(self).wf(),
            message.wf(),
            old(self)@.queued.len() < usize::MAX / 2,
        ensures
            final(self).wf(),
            final(self).config() == old(self).config(),
            final(self)@ == (BufferView { queued: old(self)@.queued.push(message@), ..old(self)@ }),
    {
        batch_channel::send_batch(&self.sender, &mut self.receiver, message);
        assert(self@.queued =~= old(self)@.queued.push(message@));
    }

    /// Take the timestamps of a batch's checkpoints over, as far as they are new.
    fn merge_checkpoints(&mut self, cps: &BTreeMap<u64, u64>)
        requires
            old(self).wf(),
        ensures
            final(self).wf(),
            final(self).config() == old(self).config(),
            final(self)@ == (BufferView {
                cps: cps@.union_prefer_right(old(self)@.cps),
                ..old(self)@
            }),
            final(self).receiver == old(self).receiver,
    {
        let ghost before = self@;
        let ghost listed = vstd::std_specs::iter::IteratorSpec::remaining(&cps.iter());
        for (cp, ts_ms) in walk: cps.iter()
            invariant
                walk.seq() == listed,
                listed == vstd::std_specs::iter::IteratorSpec::remaining(&cps.iter()),
                self.wf(),
                self.settings == old(self).settings,
                self.receiver == old(self).receiver,
                self@.queued == before.queued,
                self@.canonical == before.canonical,
                forall|c: u64| #[trigger] self@.cps.contains_key(c) ==> before.cps.contains_key(c)
                    || cps@.contains_key(c),
                forall|c: u64| #[trigger] before.cps.contains_key(c) ==> self@.cps.contains_key(c)
                    && self@.cps[c] == before.cps[c],
                forall|c: u64| #[trigger] self@.cps.contains_key(c) && !before.cps.contains_key(c)
                    ==> self@.cps[c] == cps@[c],
                forall|j: int| 0 <= j < walk.index() ==> self@.cps.contains_key(*(#[trigger] listed[j]).0),
        {
            proof {
                let i = walk.index() as int;
                assert(listed[i] == (cp, ts_ms));
                assert(cps@.contains_key(*listed[i].0));
                assert(cps@.contains_key(*cp) && cps@[*cp] == *ts_ms);
            }
            let ghost known = self@.cps;
            if !self.cps.contains_key(cp) {
                self.cps.insert(*cp, *ts_ms);
                assert(self@.cps == known.insert(*cp, *ts_ms));
            }
        }
        proof {
            assert forall|c: u64| cps@.contains_key(c) implies self@.cps.contains_key(c) by {
                assert(listed.contains((&c, &cps@[c])));
            }
            assert(self@.cps =~= cps@.union_prefer_right(before.cps));
        }
    }

    /// OR one row of a batch into its canonical row.
    fn merge_row(&mut self, row_key: &Vec<u8>, batched: &BatchedRow)
        requires
            old(self).wf(),
            old(self)@.cps.contains_key(batched.max_cp),
            processor::can_find_low_end(old(self).settings.processor, batched.bucket_id),
        ensures
            final(self).wf(),
            final(self).settings == old(self).settings,
            final(self).receiver == old(self).receiver,
            final(self)@ == (BufferView {
                canonical: old(self)@.canonical.insert(
                    row_key@,
                    old(self)@.merged_row(
                        old(self).settings.processor,
                        old(self).settings.startup_tx_hi,
                        row_key@,
                        batched@,
                    ),
                ),
                ..old(self)@
            }),
    {
        let ghost before = self@;
        let ghost key = row_key@;
        let needs_load_from_db: bool = processor::bucket_straddles_startup(
            &self.settings.processor,
            self.settings.startup_tx_hi,
            batched.bucket_id,
        );
        if !self.canonical.contains_key(row_key) {
            self.canonical.insert(
                row_map::copy_bytes(row_key),
                CanonicalRow {
                    bucket_id: batched.bucket_id,
                    bitmap: bitmap::new_bitmap(),
                    max_cp: 0,
                    dirty: false,
                    needs_load_from_db,
                },
            );
        }
        match self.canonical.get_mut(row_key) {
            Some(row) => {
                bitmap::or_bits(&mut row.bitmap, &batched.bitmap);
                if batched.max_cp > row.max_cp {
                    row.max_cp = batched.max_cp;
                }
                row.dirty = true;
            },
            None => {},
        }
        proof {
            assert(Set::<u32>::empty().union(batched@.bits) =~= batched@.bits);
            assert(self@.canonical =~= before.canonical.insert(
                key,
                before.merged_row(self.settings.processor, self.settings.startup_tx_hi, key, batched@),
            ));
            assert(self@.queued == before.queued);
        }
    }

    /// OR one batch into the canonical rows.
    fn merge_into_canonical(&mut self, message: BatchMessage)
        requires
            old(self).wf(),
            message.wf(),
            forall|key: Seq<u8>| #[trigger]
                message@.rows.contains_key(key) ==> processor::can_find_low_end(
                    old(self).settings.processor,
                    message@.rows[key].bucket_id,
                ),
        ensures
            final(self).wf(),
            final(self).settings == old(self).settings,
            final(self).receiver == old(self).receiver,
            final(self)@ == old(self)@.merged(
                old(self).settings.processor,
                old(self).settings.startup_tx_hi,
                message@,
            ),
    {
        let ghost before = self@;
        let ghost processor = self.settings.processor;
        let ghost startup_tx_hi = self.settings.startup_tx_hi;
        let ghost all = message@.rows;
        self.merge_checkpoints(&message.cps);
        let ghost cps = self@.cps;
        let ghost keys = message.rows.keys();
        let len: usize = message.rows.len();
        let mut i: usize = 0;
        proof {
            message.rows.lemma_walk();
            assert(self@.canonical =~= before.merged(
                processor,
                startup_tx_hi,
                MessageView { rows: all.restrict(keys.take(0).to_set()), cps: message@.cps },
            ).canonical);
        }
        while i < len
            invariant
                i <= len == keys.len(),
                keys == message.rows.keys(),
                keys.no_duplicates(),
                message.wf(),
                all == message@.rows,
                processor == self.settings.processor,
                startup_tx_hi == self.settings.startup_tx_hi,
                forall|key: Seq<u8>| #[trigger]
                    all.contains_key(key) ==> processor::can_find_low_end(processor, all[key].bucket_id),
                self.wf(),
                self.settings == old(self).settings,
                self.receiver == old(self).receiver,
                self@.queued == before.queued,
                self@.cps == cps,
                cps == message@.cps.union_prefer_right(before.cps),
                self@.canonical == before.merged(
                    processor,
                    startup_tx_hi,
                    MessageView { rows: all.restrict(keys.take(i as int).to_set()), cps: message@.cps },
                ).canonical,
            decreases len - i,
        {
            let ghost key = keys[i as int];
            let ghost partial = self@;
            proof {
                message.rows.lemma_walk();
                row_map::lemma_one_more(keys, i as int);
                assert(all.contains_key(key));
                assert(!keys.take(i as int).to_set().contains(key));
                assert(partial.canonical.contains_key(key) == before.canonical.contains_key(key));
            }
            self.merge_row(message.rows.key_at(i), message.rows.value_at(i));
            proof {
                assert(self@.canonical =~= before.merged(
                    processor,
                    startup_tx_hi,
                    MessageView { rows: all.restrict(keys.take(i + 1).to_set()), cps: message@.cps },
                ).canonical);
            }
            i = i + 1;
        }
        proof {
            message.rows.lemma_walk();
            assert(keys.take(len as int) =~= keys);
            assert(all.restrict(keys.to_set()) =~= all);
        }
    }

    /// Merge every batch that was sent.
    fn drain(&mut self)
        requires
            old(self).wf(),
            forall|i: int, key: Seq<u8>|
                0 <= i < old(self)@.queued.len() && #[trigger] old(self)@.queued[i].rows.contains_key(key)
                    ==> processor::can_find_low_end(
                    old(self).settings.processor,
                    old(self)@.queued[i].rows[key].bucket_id,
                ),
        ensures
            final(self).wf(),
            final(self).settings == old(self).settings,
            final(self)@ == old(self)@.drained(
                old(self).settings.processor,
                old(self).settings.startup_tx_hi,
            ),
    {
        let ghost before = self@;
        let ghost all = before.queued;
        let ghost processor = self.settings.processor;
        let ghost startup_tx_hi = self.settings.startup_tx_hi;
        let ghost mut n: int = 0;
        proof {
            assert(all.skip(0) =~= all);
            assert((BufferView { queued: all.take(0), ..before }).drained(processor, startup_tx_hi)
                =~= BufferView { queued: all.take(0), ..before });
        }
        loop
            invariant_except_break
                self@.queued == all.skip(n),
            invariant
                0 <= n <= all.len(),
                self.wf(),
                self.settings == old(self).settings,
                processor == self.settings.processor,
                startup_tx_hi == self.settings.startup_tx_hi,
                all == before.queued,
                before == old(self)@,
                forall|i: int, key: Seq<u8>|
                    0 <= i < all.len() && #[trigger] all[i].rows.contains_key(key)
                        ==> processor::can_find_low_end(processor, all[i].rows[key].bucket_id),
                ({
                    let merged = (BufferView { queued: all.take(n), ..before }).drained(
                        processor,
                        startup_tx_hi,
                    );
                    self@.canonical == merged.canonical && self@.cps == merged.cps && merged.queued =~= Seq::empty()
                }),
            ensures
                n == all.len(),
                self@.queued =~= Seq::empty(),
            decreases all.len() - n,
        {
            let ghost queued = batch_channel::queued_batches(self.receiver);
            assert(all.skip(n).len() == queued.len());
            match batch_channel::receive_batch(&mut self.sender, &mut self.receiver) {
                Some(message) => {
                    let ghost rest = self@;
                    proof {
                        assert(queued[0].wf());
                        assert forall|i: int| 0 <= i < queued.drop_first().len() implies (
                        #[trigger] queued.drop_first()[i]).wf() by {
                            assert(queued[i + 1].wf());
                        }
                        assert(all.skip(n)[0] == message@);
                        assert(all[n] == message@);
                        assert(rest.queued =~= all.skip(n).drop_first());
                        assert(all.skip(n).drop_first() =~= all.skip(n + 1));
                        assert(all.take(n + 1).drop_last() =~= all.take(n));
                    }
                    self.merge_into_canonical(message);
                    proof {
                        let met = BufferView { queued: all.take(n), ..before };
                        let more = BufferView { queued: all.take(n + 1), ..before };
                        assert(more.drained(processor, startup_tx_hi) == met.drained(
                            processor,
                            startup_tx_hi,
                        ).merged(processor, startup_tx_hi, message@));
                        assert(self@.canonical =~= more.drained(processor, startup_tx_hi).canonical);
                        n = n + 1;
                    }
                },
                None => {
                    assert(self@.queued =~= Seq::empty());
                    break;
                },
            }
        }
        proof {
            assert(all.take(n) =~= all);
            assert(BufferView { queued: all.take(n), ..before } =~= before);
        }
    }

    /// The keys of the rows to load before a flush writes.
    fn keys_to_load(&self) -> (keys: Vec<Vec<u8>>)
        requires
            self.wf(),
        ensures
            chunks::contents(keys@).no_duplicates(),
            chunks::contents(keys@).to_set() == self@.to_load(),
    {
        let mut keys: Vec<Vec<u8>> = Vec::new();
        let len: usize = self.canonical.len();
        let ghost held = self.canonical.keys();
        let ghost to_load = self@.to_load();
        let mut i: usize = 0;
        proof {
            self.canonical.lemma_walk();
            assert(chunks::contents(keys@).to_set() =~= held.take(0).to_set().intersect(to_load));
        }
        while i < len
            invariant
                i <= len == held.len(),
                self.wf(),
                held == self.canonical.keys(),
                held.no_duplicates(),
                to_load == self@.to_load(),
                chunks::contents(keys@).no_duplicates(),
                chunks::contents(keys@).to_set() == held.take(i as int).to_set().intersect(to_load),
            decreases len - i,
        {
            let key = self.canonical.key_at(i);
            let row = self.canonical.value_at(i);
            let ghost listed = chunks::contents(keys@);
            proof {
                self.canonical.lemma_walk();
                row_map::lemma_one_more(held, i as int);
                assert(!held.take(i as int).to_set().contains(key@));
                assert(self@.canonical.contains_key(key@));
            }
            if row.dirty && row.needs_load_from_db {
                keys.push(row_map::copy_bytes(key));
                proof {
                    let more = chunks::contents(keys@);
                    assert(more =~= listed.push(key@));
                    assert(!listed.to_set().contains(key@));
                    row_map::lemma_one_more(more, listed.len() as int);
                    assert(more.take(more.len() as int) =~= more);
                    assert(more.take(listed.len() as int) =~= listed);
                }
            }
            assert(chunks::contents(keys@).to_set() =~= held.take(i + 1).to_set().intersect(to_load));
            i = i + 1;
        }
        proof {
            self.canonical.lemma_walk();
            assert(held.take(len as int) =~= held);
            assert(held.to_set().intersect(to_load) =~= to_load);
        }
        keys
    }

    /// Take note that the rows at `keys` were looked up.
    fn mark_loaded(&mut self, keys: &Vec<Vec<u8>>)
        requires
            old(self).wf(),
        ensures
            final(self).wf(),
            final(self).settings == old(self).settings,
            final(self)@ == old(self)@.loaded(chunks::contents(keys@), Map::empty()),
    {
        let ghost before = self@;
        let ghost listed = chunks::contents(keys@);
        let mut i: usize = 0;
        assert(self@ =~= before.loaded(listed.take(0), Map::empty()));
        while i < keys.len()
            invariant
                i <= keys.len(),
                listed == chunks::contents(keys@),
                self.wf(),
                self.settings == old(self).settings,
                self@ == before.loaded(listed.take(i as int), Map::empty()),
            decreases keys.len() - i,
        {
            let ghost partial = self@;
            match self.canonical.get_mut(&keys[i]) {
                Some(row) => {
                    row.needs_load_from_db = false;
                },
                None => {},
            }
            proof {
                let at = listed[i as int];
                if partial.canonical.contains_key(at) {
                    assert(self@.canonical =~= partial.canonical.insert(
                        at,
                        CanonicalView { needs_load: false, ..partial.canonical[at] },
                    ));
                } else {
                    assert(self@.canonical =~= partial.canonical);
                }
                row_map::lemma_one_more(listed, i as int);
                assert forall|key: Seq<u8>| listed.take(i + 1).contains(key) == (listed.take(i as int).contains(key)
                    || key == listed[i as int]) by {
                    assert(listed.take(i + 1).to_set().contains(key) == listed.take(i + 1).contains(key));
                    assert(listed.take(i as int).to_set().contains(key) == listed.take(i as int).contains(key));
                }
                assert(self@.canonical =~= before.loaded(listed.take(i + 1), Map::empty()).canonical);
                assert(self@ =~= before.loaded(listed.take(i + 1), Map::empty()));
            }
            i = i + 1;
        }
        assert(listed.take(i as int) =~= listed);
    }

    /// OR what was found in the table into the rows that are held.
    fn or_found(&mut self, found: &RowMap<RoaringBitmap>)
        requires
            old(self).wf(),
            found.wf(),
        ensures
            final(self).wf(),
            final(self).settings == old(self).settings,
            final(self)@ == old(self)@.loaded(seq![], rows::bits_by_key(found@)),
    {
        let ghost before = self@;
        let ghost all = rows::bits_by_key(found@);
        let ghost keys = found.keys();
        let len: usize = found.len();
        let mut i: usize = 0;
        proof {
            found.lemma_walk();
            assert(self@ =~= before.loaded(seq![], all.restrict(keys.take(0).to_set())));
        }
        while i < len
            invariant
                i <= len == keys.len(),
                keys == found.keys(),
                keys.no_duplicates(),
                found.wf(),
                all == rows::bits_by_key(found@),
                self.wf(),
                self.settings == old(self).settings,
                self@ == before.loaded(seq![], all.restrict(keys.take(i as int).to_set())),
            decreases len - i,
        {
            let ghost key = keys[i as int];
            let ghost partial = self@;
            proof {
                found.lemma_walk();
                row_map::lemma_one_more(keys, i as int);
                assert(!keys.take(i as int).to_set().contains(key));
                assert(all.contains_key(key));
            }
            match self.canonical.get_mut(found.key_at(i)) {
                Some(row) => {
                    bitmap::or_bits(&mut row.bitmap, found.value_at(i));
                },
                None => {},
            }
            proof {
                if partial.canonical.contains_key(key) {
                    assert(self@.canonical =~= partial.canonical.insert(
                        key,
                        CanonicalView {
                            bits: partial.canonical[key].bits.union(all[key]),
                            ..partial.canonical[key]
                        },
                    ));
                } else {
                    assert(self@.canonical =~= partial.canonical);
                }
                let after = before.loaded(seq![], all.restrict(keys.take(i + 1).to_set())).canonical;
                assert forall|k: Seq<u8>| #[trigger] self@.canonical.contains_key(k) implies self@.canonical[k]
                    == after[k] by {
                    assert(before.canonical.contains_key(k));
                    if k == key {
                        assert(self@.canonical[k] == CanonicalView {
                            bits: before.canonical[k].bits.union(all[k]),
                            ..before.canonical[k]
                        });
                        assert(all.restrict(keys.take(i + 1).to_set()).contains_key(k));
                    } else {
                        assert(self@.canonical[k] == partial.canonical[k]);
                    }
                }
                assert(self@.canonical =~= after);
            }
            i = i + 1;
        }
        proof {
            found.lemma_walk();
            assert(keys.take(len as int) =~= keys);
            assert(all.restrict(keys.to_set()) =~= all);
        }
    }

    /// OR the rows that an earlier process wrote, as far as they were asked for at
    /// `keys` and `fetched`, into the rows that are held.
    fn load_pre_restart_state<E>(&mut self, keys: Vec<Vec<u8>>, fetched: Result<Vec<FetchedRow>, E>) -> (action:
        FlushAction<(), E>)
        requires
            old(self).wf(),
        ensures
            final(self).wf(),
            final(self).settings == old(self).settings,
            match fetched {
                Err(error) => {
                    &&& action == FlushAction::<(), E>::Done(Err(FlushError::Load(error)))
                    &&& final(self)@ == old(self)@
                },
                Ok(fetched) => match rows::fetched_bits(
                    fetched@,
                    rows::column_bytes(old(self).settings.column),
                ) {
                    None => {
                        &&& action matches FlushAction::Done(Err(FlushError::CorruptBitmap(_)))
                        &&& final(self)@ == old(self)@
                    },
                    Some(found) => {
                        &&& action == FlushAction::<(), E>::Wait
                        &&& final(self)@ == old(self)@.loaded(chunks::contents(keys@), found)
                    },
                },
            },
    {
        let fetched = match fetched {
            Ok(fetched) => fetched,
            Err(error) => {
                return FlushAction::Done(Err(FlushError::Load(error)));
            },
        };
        let found = match rows::read_fetched(&fetched, self.settings.column) {
            Ok(found) => found,
            Err(corrupt) => {
                return FlushAction::Done(Err(FlushError::CorruptBitmap(corrupt.error)));
            },
        };
        self.mark_loaded(&keys);
        self.or_found(&found);
        assert(self@.canonical =~= old(self)@.loaded(
            chunks::contents(keys@),
            rows::bits_by_key(found@),
        ).canonical);
        FlushAction::Wait
    }

    /// The entry for the `i`-th row.
    fn entry_at(&mut self, i: usize) -> (entry: Entry)
        requires
            old(self).wf(),
            i < old(self).canonical.keys().len(),
        ensures
            final(self).wf(),
            final(self).settings == old(self).settings,
            final(self).canonical.keys() == old(self).canonical.keys(),
            final(self)@ == old(self)@,
            ({
                let row = old(self)@.canonical[entry.row_key@];
                &&& entry.row_key@ == old(self).canonical.keys()[i as int]
                &&& entry.column@ == old(self).settings.column@
                &&& bitmap::stored_bits(entry.value@) == Some(row.bits)
                &&& entry.timestamp_ms == old(self)@.cps[row.max_cp]
            }),
    {
        let ghost before = self@;
        let ghost key = self.canonical.keys()[i as int];
        proof {
            self.canonical.lemma_walk();
            assert(before.canonical.contains_key(key));
        }
        let row_key = row_map::copy_bytes(self.canonical.key_at(i));
        let row = self.canonical.value_at_mut(i);
        bitmap::optimize_bitmap(&mut row.bitmap);
        let value = bitmap::write_bitmap(&row.bitmap);
        let max_cp: u64 = row.max_cp;
        assert(self@.canonical =~= before.canonical);
        let timestamp_ms: u64 = match self.cps.get(&max_cp) {
            Some(timestamp_ms) => *timestamp_ms,
            None => 0,
        };
        Entry { row_key, column: self.settings.column, value, timestamp_ms }
    }

    /// One entry for each dirty row.
    fn dirty_entries(&mut self) -> (entries: Vec<Entry>)
        requires
            old(self).wf(),
        ensures
            final(self).wf(),
            final(self).settings == old(self).settings,
            final(self)@ == old(self)@,
            old(self)@.written_as(old(self).settings.column@, entries@),
    {
        let mut entries: Vec<Entry> = Vec::new();
        let len: usize = self.canonical.len();
        let ghost held = self.canonical.keys();
        let ghost before = self@;
        let ghost dirty = before.dirty();
        let ghost key_of = |entry: Entry| entry.row_key@;
        let mut i: usize = 0;
        proof {
            self.canonical.lemma_walk();
            assert(entries@.map_values(key_of).to_set() =~= held.take(0).to_set().intersect(dirty));
        }
        while i < len
            invariant
                i <= len == held.len(),
                self.wf(),
                self.settings == old(self).settings,
                self@ == before,
                held == self.canonical.keys(),
                held.no_duplicates(),
                dirty == before.dirty(),
                key_of == (|entry: Entry| entry.row_key@),
                entries@.map_values(key_of).no_duplicates(),
                entries@.map_values(key_of).to_set() == held.take(i as int).to_set().intersect(dirty),
                forall|j: int|
                    0 <= j < entries@.len() ==> {
                        let row = before.canonical[(#[trigger] entries@[j]).row_key@];
                        &&& entries@[j].column@ == self.settings.column@
                        &&& bitmap::stored_bits(entries@[j].value@) == Some(row.bits)
                        &&& entries@[j].timestamp_ms == before.cps[row.max_cp]
                    },
            decreases len - i,
        {
            let ghost listed = entries@.map_values(key_of);
            let ghost key = held[i as int];
            let is_dirty: bool = self.canonical.value_at(i).dirty;
            proof {
                self.canonical.lemma_walk();
                row_map::lemma_one_more(held, i as int);
                assert(!held.take(i as int).to_set().contains(key));
                assert(before.canonical.contains_key(key));
                assert(before.canonical[key].dirty == is_dirty);
            }
            if is_dirty {
                let entry = self.entry_at(i);
                entries.push(entry);
                proof {
                    let more = entries@.map_values(key_of);
                    assert(more =~= listed.push(key));
                    assert(!listed.to_set().contains(key));
                    row_map::lemma_one_more(more, listed.len() as int);
                    assert(more.take(more.len() as int) =~= more);
                    assert(more.take(listed.len() as int) =~= listed);
                }
            }
            assert(entries@.map_values(key_of).to_set() =~= held.take(i + 1).to_set().intersect(dirty));
            i = i + 1;
        }
        proof {
            self.canonical.lemma_walk();
            assert(held.take(len as int) =~= held);
            assert(held.to_set().intersect(dirty) =~= dirty);
        }
        entries
    }

    /// Write the dirty rows, if there are any; or else settle.
    fn next_write<E>(&mut self, tx_hi: u64) -> (action: FlushAction<(), E>)
        requires
            old(self).wf(),
            old(self)@.dirty() == Set::<Seq<u8>>::empty() ==> old(self)@.can_settle(
                old(self).settings.processor,
            ),
        ensures
            final(self).wf(),
            final(self).settings == old(self).settings,
            final(self)@ == old(self)@.settled_if_clean(old(self).settings.processor, tx_hi),
            writes(action, old(self)@, old(self).settings.column@),
    {
        let entries = self.dirty_entries();
        let ghost listed = entries@;
        let ghost keys = listed.map_values(|entry: Entry| entry.row_key@);
        let entry_count: usize = entries.len();
        if entry_count == 0 {
            assert(keys.to_set() =~= Set::empty());
            self.settle(tx_hi);
            return FlushAction::Done(Ok(()));
        }
        assert(keys.to_set().contains(keys[0]));
        let entry_chunks = chunks::into_chunks(entries, FLUSH_WRITE_CHUNK_SIZE);
        proof {
            chunks::lemma_cut_is_a_partition(listed, FLUSH_WRITE_CHUNK_SIZE as nat);
        }
        FlushAction::Write { entry_count, entry_chunks, concurrency: FLUSH_WRITE_CONCURRENCY }
    }

    /// Merge what was sent; then load the rows that need it, or else write.
    fn start_flush<E>(&mut self, tx_hi: u64) -> (action: FlushAction<(), E>)
        requires
            old(self).wf(),
            forall|i: int, key: Seq<u8>|
                0 <= i < old(self)@.queued.len() && #[trigger] old(self)@.queued[i].rows.contains_key(key)
                    ==> processor::can_find_low_end(
                    old(self).settings.processor,
                    old(self)@.queued[i].rows[key].bucket_id,
                ),
            ({
                let drained = old(self)@.drained(
                    old(self).settings.processor,
                    old(self).settings.startup_tx_hi,
                );
                drained.dirty() == Set::<Seq<u8>>::empty() ==> drained.can_settle(
                    old(self).settings.processor,
                )
            }),
        ensures
            final(self).wf(),
            final(self).settings == old(self).settings,
            ({
                let drained = old(self)@.drained(
                    old(self).settings.processor,
                    old(self).settings.startup_tx_hi,
                );
                &&& final(self)@ == drained.settled_if_clean(old(self).settings.processor, tx_hi)
                &&& if drained.to_load() == Set::<Seq<u8>>::empty() {
                    writes(action, drained, old(self).settings.column@)
                } else {
                    flush::loads(action, drained.to_load())
                }
            }),
    {
        self.drain();
        let keys = self.keys_to_load();
        let ghost listed = keys@;
        if keys.len() == 0 {
            assert(chunks::contents(listed).to_set() =~= Set::empty());
            return self.next_write(tx_hi);
        }
        assert(chunks::contents(listed).to_set().contains(chunks::contents(listed)[0]));
        assert(self@.dirty().contains(chunks::contents(listed)[0]));
        let key_chunks = chunks::into_chunks(keys, flush::PRE_RESTART_LOAD_CHUNK_SIZE);
        proof {
            chunks::lemma_cut_is_a_partition(listed, flush::PRE_RESTART_LOAD_CHUNK_SIZE as nat);
        }
        FlushAction::Load { key_chunks, concurrency: flush::PRE_RESTART_LOAD_CONCURRENCY }
    }

    /// Mark every row as written.
    fn mark_clean(&mut self)
        requires
            old(self).wf(),
        ensures
            final(self).wf(),
            final(self).settings == old(self).settings,
            final(self)@.queued == old(self)@.queued,
            final(self)@.cps == old(self)@.cps,
            final(self)@.canonical == old(self)@.canonical.map_values(
                |row: CanonicalView| CanonicalView { dirty: false, ..row },
            ),
    {
        let ghost before = self@;
        let ghost held = self.canonical.keys();
        let len: usize = self.canonical.len();
        let ghost clean = |row: CanonicalView| CanonicalView { dirty: false, ..row };
        let mut i: usize = 0;
        while i < len
            invariant
                i <= len == held.len(),
                self.wf(),
                self.settings == old(self).settings,
                held == self.canonical.keys(),
                self@.queued == before.queued,
                self@.cps == before.cps,
                self@.canonical.dom() == before.canonical.dom(),
                clean == (|row: CanonicalView| CanonicalView { dirty: false, ..row }),
                forall|j: int|
                    0 <= j < i ==> self@.canonical[#[trigger] held[j]] == clean(before.canonical[held[j]]),
                forall|j: int|
                    i <= j < held.len() ==> self@.canonical[#[trigger] held[j]] == before.canonical[held[j]],
            decreases len - i,
        {
            let ghost partial = self@;
            let ghost key = held[i as int];
            proof {
                self.canonical.lemma_walk();
                assert(partial.canonical.contains_key(key));
            }
            let row = self.canonical.value_at_mut(i);
            row.dirty = false;
            assert(self@.canonical =~= partial.canonical.insert(key, clean(partial.canonical[key])));
            i = i + 1;
        }
        proof {
            self.canonical.lemma_walk();
            assert forall|key: Seq<u8>| #[trigger] self@.canonical.contains_key(key) implies self@.canonical[key]
                == clean(before.canonical[key]) by {
                let j = self.canonical.position(key);
                assert(held[j] == key);
            }
            assert(self@.canonical =~= before.canonical.map_values(clean));
        }
    }

    /// Mark every row as written, and drop the rows that are of no more use.
    fn settle(&mut self, tx_hi: u64)
        requires
            old(self).wf(),
            old(self)@.can_settle(old(self).settings.processor),
        ensures
            final(self).wf(),
            final(self).settings == old(self).settings,
            final(self)@ == old(self)@.settled(old(self).settings.processor, tx_hi),
    {
        self.mark_clean();
        let ghost before = old(self)@;
        let ghost clean = self@;
        let ghost processor = self.settings.processor;
        let ghost held = self.canonical.keys();
        let len: usize = self.canonical.len();
        let mut keep: Vec<bool> = Vec::with_capacity(len);
        let ghost marked = *self;
        let mut i: usize = 0;
        while i < len
            invariant
                i <= len == held.len(),
                *self == marked,
                self.wf(),
                clean == self@,
                held == self.canonical.keys(),
                processor == self.settings.processor,
                forall|key: Seq<u8>| #[trigger]
                    clean.canonical.contains_key(key) && !clean.canonical[key].needs_load
                        ==> processor.can_seal(clean.canonical[key].bucket_id),
                keep@.len() == i,
                forall|j: int|
                    0 <= j < i ==> #[trigger] keep@[j] == (clean.canonical[held[j]].needs_load
                        || processor.sealed_at(clean.canonical[held[j]].bucket_id) > tx_hi),
            decreases len - i,
        {
            let row = self.canonical.value_at(i);
            proof {
                self.canonical.lemma_walk();
                assert(clean.canonical.contains_key(held[i as int]));
                assert(clean.canonical[held[i as int]] == row@);
            }
            let kept: bool = row.needs_load_from_db || self.settings.processor.seal_tx_hi_exclusive(
                row.bucket_id,
            ) > tx_hi;
            keep.push(kept);
            i = i + 1;
        }
        proof {
            self.canonical.lemma_walk();
        }
        let _ = self.canonical.retain(&keep);
        proof {
            let after = before.settled(processor, tx_hi).canonical;
            assert forall|key: Seq<u8>| self@.canonical.contains_key(key) == after.contains_key(key) by {
                if clean.canonical.contains_key(key) {
                    assert(held[marked.canonical.position(key)] == key);
                }
            }
            assert forall|key: Seq<u8>| #[trigger] self@.canonical.contains_key(key) implies self@.canonical[key]
                == after[key] by {
                assert(self.canonical@.contains_key(key));
                assert(self@.canonical[key] == clean.canonical[key]);
                assert(after.contains_key(key));
                assert(clean.canonical[key] == CanonicalView { dirty: false, ..before.canonical[key] });
            }
            assert(self@.canonical =~= after);
        }
    }

    /// Decide the next step of a flush, which merges everything that was sent,
    /// writes every dirty row and then drops the rows that `watermark` seals. A row that
    /// an earlier process may have written is loaded before it is written. If a
    /// write fails nothing counts as written.
    pub fn flush_through<E>(&mut self, event: BufferEvent<E>, watermark: &CommitterWatermark) -> (action:
        FlushAction<(), E>)
        requires
            old(self).wf(),
            event is Start ==> forall|i: int, key: Seq<u8>|
                0 <= i < old(self)@.queued.len() && #[trigger] old(self)@.queued[i].rows.contains_key(key)
                    ==> processor::can_find_low_end(
                    old(self).config().processor,
                    old(self)@.queued[i].rows[key].bucket_id,
                ),
            event is Start ==> {
                let drained = old(self)@.drained(
                    old(self).config().processor,
                    old(self).config().startup_tx_hi,
                );
                drained.dirty() == Set::<Seq<u8>>::empty() ==> drained.can_settle(
                    old(self).config().processor,
                )
            },
            event is LoadsDone && old(self)@.dirty() == Set::<Seq<u8>>::empty() ==> old(self)@.can_settle(
                old(self).config().processor,
            ),
            event is WritesDone ==> old(self)@.can_settle(old(self).config().processor),
        ensures
            final(self).wf(),
            final(self).config() == old(self).config(),
            match event {
                BufferEvent::Start => {
                    let drained = old(self)@.drained(
                        old(self).config().processor,
                        old(self).config().startup_tx_hi,
                    );
                    &&& final(self)@ == drained.settled_if_clean(
                        old(self).config().processor,
                        watermark.tx_hi,
                    )
                    &&& if drained.to_load() == Set::<Seq<u8>>::empty() {
                        writes(action, drained, old(self).config().column@)
                    } else {
                        flush::loads(action, drained.to_load())
                    }
                },
                BufferEvent::Loaded { keys, fetched } => match fetched {
                    Err(error) => {
                        &&& action == FlushAction::<(), E>::Done(Err(FlushError::Load(error)))
                        &&& final(self)@ == old(self)@
                    },
                    Ok(fetched) => match rows::fetched_bits(
                        fetched@,
                        rows::column_bytes(old(self).config().column),
                    ) {
                        None => {
                            &&& action matches FlushAction::Done(Err(FlushError::CorruptBitmap(_)))
                            &&& final(self)@ == old(self)@
                        },
                        Some(found) => {
                            &&& action == FlushAction::<(), E>::Wait
                            &&& final(self)@ == old(self)@.loaded(chunks::contents(keys@), found)
                        },
                    },
                },
                BufferEvent::LoadsDone => {
                    &&& final(self)@ == old(self)@.settled_if_clean(
                        old(self).config().processor,
                        watermark.tx_hi,
                    )
                    &&& writes(action, old(self)@, old(self).config().column@)
                },
                BufferEvent::WriteFailed(error) => {
                    &&& action == FlushAction::<(), E>::Done(Err(FlushError::Write(error)))
                    &&& final(self)@ == old(self)@
                },
                BufferEvent::WritesDone => {
                    &&& action == FlushAction::<(), E>::Done(Ok(()))
                    &&& final(self)@ == old(self)@.settled(old(self).config().processor, watermark.tx_hi)
                },
            },
    {
        match event {
            BufferEvent::Start => self.start_flush(watermark.tx_hi),
            BufferEvent::Loaded { keys, fetched } => self.load_pre_restart_state(keys, fetched),
            BufferEvent::LoadsDone => self.next_write(watermark.tx_hi),
            BufferEvent::WriteFailed(error) => FlushAction::Done(Err(FlushError::Write(error))),
            BufferEvent::WritesDone => {
                self.settle(watermark.tx_hi);
                FlushAction::Done(Ok(()))
            },
        }
    }
}

/// One of the batches that were sent holds the bit.
pub open spec fn was_sent(queued: Seq<MessageView>, key: Seq<u8>, bit: u32) -> bool {
    exists|i: int| 0 <= i < queued.len() && #[trigger] index_batch::holds(queued[i], key, bit)
}

/// The buffer holds the bit in a canonical row.
pub open spec fn is_canonical(state: BufferView, key: Seq<u8>, bit: u32) -> bool {
    state.canonical.contains_key(key) && state.canonical[key].bits.contains(bit)
}

/// A flush misses nothing and makes nothing up: after it merged what was sent, the
/// canonical rows hold exactly the bits that they held before and the bits of the
/// batches that were sent.
pub proof fn law_drain_takes_every_bit<P: BitmapIndexProcessor>(
    state: BufferView,
    processor: P,
    startup_tx_hi: u64,
    key: Seq<u8>,
    bit: u32,
)
    ensures
        is_canonical(state.drained(processor, startup_tx_hi), key, bit) <==> is_canonical(state, key, bit)
            || was_sent(state.queued, key, bit),
        state.drained(processor, startup_tx_hi).queued.len() == 0,
    decreases state.queued.len(),
{
    if state.queued.len() > 0 {
        let last = state.queued.last();
        let front = BufferView { queued: state.queued.drop_last(), ..state };
        law_drain_takes_every_bit(front, processor, startup_tx_hi, key, bit);
        if was_sent(front.queued, key, bit) {
            let i = choose|i: int| 0 <= i < front.queued.len() && #[trigger] index_batch::holds(front.queued[i], key, bit);
            assert(index_batch::holds(state.queued[i], key, bit));
        }
        if index_batch::holds(last, key, bit) {
            assert(index_batch::holds(state.queued[state.queued.len() - 1], key, bit));
        }
        if was_sent(state.queued, key, bit) {
            let i = choose|i: int| 0 <= i < state.queued.len() && #[trigger] index_batch::holds(state.queued[i], key, bit);
            if i < front.queued.len() {
                assert(index_batch::holds(front.queued[i], key, bit));
            } else {
                assert(index_batch::holds(last, key, bit));
            }
        }
    }
}

/// A flush writes every row that was sent: after it merged what was sent, each of
/// those rows is dirty.
pub proof fn law_sent_rows_are_written<P: BitmapIndexProcessor>(
    state: BufferView,
    processor: P,
    startup_tx_hi: u64,
    i: int,
    key: Seq<u8>,
)
    requires
        0 <= i < state.queued.len(),
        state.queued[i].rows.contains_key(key),
    ensures
        state.drained(processor, startup_tx_hi).dirty().contains(key),
    decreases state.queued.len(),
{
    if i < state.queued.len() - 1 {
        let front = BufferView { queued: state.queued.drop_last(), ..state };
        law_sent_rows_are_written(front, processor, startup_tx_hi, i, key);
    }
}

/// While a row is held its bits only grow, and its latest checkpoint only moves
/// forward, whatever happens. So what is written later is a superset of what was
/// written earlier.
pub proof fn law_held_rows_only_grow<P: BitmapIndexProcessor>(
    state: BufferView,
    processor: P,
    startup_tx_hi: u64,
    message: MessageView,
    loaded_keys: Seq<Seq<u8>>,
    found: Map<Seq<u8>, Set<u32>>,
    tx_hi: u64,
    key: Seq<u8>,
)
    requires
        state.canonical.contains_key(key),
    ensures
        ({
            let merged = state.merged(processor, startup_tx_hi, message).canonical;
            let loaded = state.loaded(loaded_keys, found).canonical;
            let settled = state.settled(processor, tx_hi).canonical;
            &&& merged.contains_key(key)
            &&& state.canonical[key].bits.subset_of(merged[key].bits)
            &&& state.canonical[key].max_cp <= merged[key].max_cp
            &&& loaded.contains_key(key)
            &&& state.canonical[key].bits.subset_of(loaded[key].bits)
            &&& state.canonical[key].max_cp == loaded[key].max_cp
            &&& settled.contains_key(key) ==> {
                &&& settled[key].bits == state.canonical[key].bits
                &&& settled[key].max_cp == state.canonical[key].max_cp
            }
        }),
{
}

/// The timestamp of a checkpoint, once known, does not change.
pub proof fn law_timestamps_are_fixed<P: BitmapIndexProcessor>(
    state: BufferView,
    processor: P,
    startup_tx_hi: u64,
    message: MessageView,
    cp: u64,
)
    requires
        state.cps.contains_key(cp),
    ensures
        state.merged(processor, startup_tx_hi, message).cps.contains_key(cp),
        state.merged(processor, startup_tx_hi, message).cps[cp] == state.cps[cp],
{
}

/// After a flush that wrote everything, nothing is left to write.
pub proof fn law_settled_is_clean<P: BitmapIndexProcessor>(state: BufferView, processor: P, tx_hi: u64)
    ensures
        state.settled(processor, tx_hi).dirty() == Set::<Seq<u8>>::empty(),
{
    assert(state.settled(processor, tx_hi).dirty() =~= Set::empty());
}

/// A row is dropped only when it owes no load and no transaction from `tx_hi` on
/// can change it.
pub proof fn law_settling_keeps_open_rows<P: BitmapIndexProcessor>(
    state: BufferView,
    processor: P,
    tx_hi: u64,
    key: Seq<u8>,
)
    requires
        state.canonical.contains_key(key),
        state.canonical[key].needs_load || processor.sealed_at(state.canonical[key].bucket_id) > tx_hi,
    ensures
        state.settled(processor, tx_hi).canonical.contains_key(key),
{
}

/// Nothing is lost when rows are dropped: a batch of later transactions, which no longer
/// contributes to a bucket that `tx_hi` seals, is merged into rows that still have every
/// bit. So what is written after a flush is a superset of what was written before.
pub proof fn law_writes_after_a_flush_are_supersets<P: BitmapIndexProcessor>(
    state: BufferView,
    processor: P,
    startup_tx_hi: u64,
    message: MessageView,
    tx_hi: u64,
    key: Seq<u8>,
)
    requires
        state.canonical.contains_key(key),
        message.rows.contains_key(key),
        message.rows[key].bucket_id == state.canonical[key].bucket_id,
        processor.sealed_at(message.rows[key].bucket_id) > tx_hi,
    ensures
        ({
            let after = state.settled(processor, tx_hi).merged(processor, startup_tx_hi, message);
            &&& after.canonical.contains_key(key)
            &&& state.canonical[key].bits.subset_of(after.canonical[key].bits)
            &&& state.canonical[key].max_cp <= after.canonical[key].max_cp
        }),
{
}

/// A row is loaded once: as long as it is held, no later step asks for it again.
pub proof fn law_rows_are_loaded_once<P: BitmapIndexProcessor>(
    state: BufferView,
    processor: P,
    startup_tx_hi: u64,
    message: MessageView,
    loaded_keys: Seq<Seq<u8>>,
    found: Map<Seq<u8>, Set<u32>>,
    tx_hi: u64,
    key: Seq<u8>,
)
    requires
        state.canonical.contains_key(key),
    ensures
        loaded_keys.contains(key) ==> !state.loaded(loaded_keys, found).to_load().contains(key),
        !state.canonical[key].needs_load ==> {
            &&& !state.merged(processor, startup_tx_hi, message).to_load().contains(key)
            &&& !state.loaded(loaded_keys, found).to_load().contains(key)
            &&& !state.settled(processor, tx_hi).to_load().contains(key)
        },
{
}

/// What an earlier process wrote is not lost: once it was found, the entry that is
/// written for the row holds it, next to the bits of this process.
pub proof fn law_found_bits_are_written(
    state: BufferView,
    loaded_keys: Seq<Seq<u8>>,
    found: Map<Seq<u8>, Set<u32>>,
    column: Seq<char>,
    entries: Seq<Entry>,
    i: int,
)
    requires
        state.loaded(loaded_keys, found).written_as(column, entries),
        0 <= i < entries.len(),
        state.canonical.contains_key(entries[i].row_key@),
        found.contains_key(entries[i].row_key@),
    ensures
        bitmap::stored_bits(entries[i].value@) == Some(
            state.canonical[entries[i].row_key@].bits.union(found[entries[i].row_key@]),
        ),
{
}

/// A merge in full. A row of the batch has exactly its own bits and those that it had; it
/// is of the later checkpoint of the two, and is dirty. It stays in its bucket and has to
/// be loaded if it had to be; one that is new has to be loaded exactly if its bucket
/// begins below the startup watermark. Rows that are not in the batch stay as they were.
pub proof fn law_merge_takes_every_row<P: BitmapIndexProcessor>(
    state: BufferView,
    processor: P,
    startup_tx_hi: u64,
    message: MessageView,
    key: Seq<u8>,
)
    ensures
        ({
            let merged = state.merged(processor, startup_tx_hi, message);
            let held = state.canonical.contains_key(key);
            if message.rows.contains_key(key) {
                let row = merged.canonical[key];
                let incoming = message.rows[key];
                &&& merged.canonical.contains_key(key)
                &&& row.dirty
                &&& forall|bit: u32| #[trigger]
                    row.bits.contains(bit) <==> incoming.bits.contains(bit) || (held
                        && state.canonical[key].bits.contains(bit))
                &&& row.max_cp >= incoming.max_cp
                &&& held ==> {
                    &&& row.max_cp >= state.canonical[key].max_cp
                    &&& row.max_cp == incoming.max_cp || row.max_cp == state.canonical[key].max_cp
                    &&& row.bucket_id == state.canonical[key].bucket_id
                    &&& row.needs_load == state.canonical[key].needs_load
                }
                &&& !held ==> {
                    &&& row.max_cp == incoming.max_cp
                    &&& row.bucket_id == incoming.bucket_id
                    &&& incoming.bucket_id == 0 ==> row.needs_load == (startup_tx_hi > 0)
                    &&& incoming.bucket_id > 0 ==> row.needs_load == (processor.sealed_at(
                        (incoming.bucket_id - 1) as u64,
                    ) < startup_tx_hi)
                }
            } else {
                &&& merged.canonical.contains_key(key) == held
                &&& held ==> merged.canonical[key] == state.canonical[key]
            }
        }),
        state.merged(processor, startup_tx_hi, message).queued == state.queued,
{
}

/// A merge dates the checkpoints of the batch that were not dated before, and no others.
pub proof fn law_merge_dates_new_checkpoints<P: BitmapIndexProcessor>(
    state: BufferView,
    processor: P,
    startup_tx_hi: u64,
    message: MessageView,
    cp: u64,
)
    ensures
        ({
            let cps = state.merged(processor, startup_tx_hi, message).cps;
            &&& cps.contains_key(cp) <==> state.cps.contains_key(cp) || message.cps.contains_key(cp)
            &&& state.cps.contains_key(cp) ==> cps[cp] == state.cps[cp]
            &&& !state.cps.contains_key(cp) && message.cps.contains_key(cp) ==> cps[cp] == message.cps[cp]
        }),
{
}

/// Batches are merged in the order in which they were sent: to send one more and then
/// merge what was sent is to merge what was sent before and then that one. Merging
/// leaves nothing to merge.
pub proof fn law_batches_are_merged_in_order<P: BitmapIndexProcessor>(
    state: BufferView,
    processor: P,
    startup_tx_hi: u64,
    message: MessageView,
)
    ensures
        (BufferView { queued: state.queued.push(message), ..state }).drained(processor, startup_tx_hi)
            == state.drained(processor, startup_tx_hi).merged(processor, startup_tx_hi, message),
        state.queued.len() == 0 ==> state.drained(processor, startup_tx_hi) == state,
        state.drained(processor, startup_tx_hi).drained(processor, startup_tx_hi) == state.drained(
            processor,
            startup_tx_hi,
        ),
{
    let more = BufferView { queued: state.queued.push(message), ..state };
    assert(more.queued.drop_last() =~= state.queued);
    assert(BufferView { queued: more.queued.drop_last(), ..more } == state);
    law_drain_takes_every_bit(state, processor, startup_tx_hi, seq![], 0);
}

/// One of the batches that were sent has the row.
pub open spec fn was_row_sent(queued: Seq<MessageView>, key: Seq<u8>) -> bool {
    exists|i: int| 0 <= i < queued.len() && (#[trigger] queued[i]).rows.contains_key(key)
}

proof fn lemma_row_was_sent(queued: Seq<MessageView>, key: Seq<u8>)
    requires
        queued.len() > 0,
    ensures
        was_row_sent(queued, key) <==> was_row_sent(queued.drop_last(), key) || queued.last().rows.contains_key(
            key,
        ),
{
    let front = queued.drop_last();
    if was_row_sent(front, key) {
        let i = choose|i: int| 0 <= i < front.len() && (#[trigger] front[i]).rows.contains_key(key);
        assert(queued[i].rows.contains_key(key));
    }
    if queued.last().rows.contains_key(key) {
        assert(queued[queued.len() - 1].rows.contains_key(key));
    }
    if was_row_sent(queued, key) {
        let i = choose|i: int| 0 <= i < queued.len() && (#[trigger] queued[i]).rows.contains_key(key);
        if i < front.len() {
            assert(front[i].rows.contains_key(key));
        }
    }
}

/// A flush merges every row that was sent and no other: after it merged what was sent, it
/// holds those and the rows that it held, and a row that was not sent is as it was.
pub proof fn law_drain_has_the_rows_that_were_sent<P: BitmapIndexProcessor>(
    state: BufferView,
    processor: P,
    startup_tx_hi: u64,
    key: Seq<u8>,
)
    ensures
        ({
            let drained = state.drained(processor, startup_tx_hi);
            &&& drained.canonical.contains_key(key) <==> state.canonical.contains_key(key) || was_row_sent(
                state.queued,
                key,
            )
            &&& was_row_sent(state.queued, key) ==> drained.canonical[key].dirty
            &&& !was_row_sent(state.queued, key) && state.canonical.contains_key(key) ==> drained.canonical[key]
                == state.canonical[key]
        }),
    decreases state.queued.len(),
{
    if state.queued.len() > 0 {
        let front = BufferView { queued: state.queued.drop_last(), ..state };
        law_drain_has_the_rows_that_were_sent(front, processor, startup_tx_hi, key);
        lemma_row_was_sent(state.queued, key);
    }
}

/// A row that an earlier process may have written is loaded before it is written: if a
/// row was sent that is not held, and all that was sent of it is of a bucket that begins
/// below the startup watermark, it has to be loaded after what was sent was merged. If
/// the bucket begins at the watermark or later it has not.
pub proof fn law_sent_rows_of_straddling_buckets_are_loaded<P: BitmapIndexProcessor>(
    state: BufferView,
    processor: P,
    startup_tx_hi: u64,
    key: Seq<u8>,
    bucket_id: u64,
)
    requires
        !state.canonical.contains_key(key),
        was_row_sent(state.queued, key),
        forall|i: int|
            0 <= i < state.queued.len() && (#[trigger] state.queued[i]).rows.contains_key(key)
                ==> state.queued[i].rows[key].bucket_id == bucket_id,
    ensures
        ({
            let drained = state.drained(processor, startup_tx_hi);
            &&& drained.canonical.contains_key(key)
            &&& drained.canonical[key].bucket_id == bucket_id
            &&& bucket_id == 0 ==> (drained.to_load().contains(key) <==> startup_tx_hi > 0)
            &&& bucket_id > 0 ==> (drained.to_load().contains(key) <==> processor.sealed_at(
                (bucket_id - 1) as u64,
            ) < startup_tx_hi)
        }),
    decreases state.queued.len(),
{
    let front = BufferView { queued: state.queued.drop_last(), ..state };
    let last = state.queued.last();
    assert(last == state.queued[state.queued.len() - 1]);
    lemma_row_was_sent(state.queued, key);
    law_drain_has_the_rows_that_were_sent(front, processor, startup_tx_hi, key);
    law_drain_has_the_rows_that_were_sent(state, processor, startup_tx_hi, key);
    law_merge_takes_every_row(front.drained(processor, startup_tx_hi), processor, startup_tx_hi, last, key);
    if was_row_sent(front.queued, key) {
        assert forall|i: int| 0 <= i < front.queued.len() && (#[trigger] front.queued[i]).rows.contains_key(key) implies front.queued[i].rows[key].bucket_id
            == bucket_id by {
            assert(state.queued[i] == front.queued[i]);
        }
        law_sent_rows_of_straddling_buckets_are_loaded(front, processor, startup_tx_hi, key, bucket_id);
    }
}

/// A row is of the latest checkpoint that contributed to it: after what was sent was
/// merged, none that was sent is later, and the row had it before or it was sent.
pub proof fn law_drained_rows_are_of_the_latest_checkpoint<P: BitmapIndexProcessor>(
    state: BufferView,
    processor: P,
    startup_tx_hi: u64,
    key: Seq<u8>,
)
    requires
        state.drained(processor, startup_tx_hi).canonical.contains_key(key),
    ensures
        ({
            let max_cp = state.drained(processor, startup_tx_hi).canonical[key].max_cp;
            &&& state.canonical.contains_key(key) ==> state.canonical[key].max_cp <= max_cp
            &&& forall|i: int|
                0 <= i < state.queued.len() && (#[trigger] state.queued[i]).rows.contains_key(key)
                    ==> state.queued[i].rows[key].max_cp <= max_cp
            &&& (state.canonical.contains_key(key) && state.canonical[key].max_cp == max_cp) || exists|i: int|
                0 <= i < state.queued.len() && (#[trigger] state.queued[i]).rows.contains_key(key)
                    && state.queued[i].rows[key].max_cp == max_cp
        }),
    decreases state.queued.len(),
{
    if state.queued.len() > 0 {
        let front = BufferView { queued: state.queued.drop_last(), ..state };
        let last = state.queued.len() - 1;
        let before = front.drained(processor, startup_tx_hi);
        let after = state.drained(processor, startup_tx_hi).canonical[key];
        assert(state.queued.last() == state.queued[last]);
        assert forall|i: int| 0 <= i < last implies #[trigger] state.queued[i] == front.queued[i] by {}
        law_drain_has_the_rows_that_were_sent(front, processor, startup_tx_hi, key);
        if before.canonical.contains_key(key) {
            law_drained_rows_are_of_the_latest_checkpoint(front, processor, startup_tx_hi, key);
            if after.max_cp == before.canonical[key].max_cp && !(state.canonical.contains_key(key)
                && state.canonical[key].max_cp == after.max_cp) {
                let i = choose|i: int|
                    0 <= i < front.queued.len() && (#[trigger] front.queued[i]).rows.contains_key(key)
                        && front.queued[i].rows[key].max_cp == after.max_cp;
                assert(state.queued[i] == front.queued[i]);
            }
        } else {
            assert forall|i: int| 0 <= i < state.queued.len() && (#[trigger] state.queued[i]).rows.contains_key(key) implies state.queued[i].rows[key].max_cp
                <= after.max_cp by {
                if i < last {
                    assert(front.queued[i].rows.contains_key(key));
                }
            }
        }
    }
}

/// A flush does not write a row before it was looked up: as long as a dirty row has to be
/// loaded, the flush begins with a load, and asks for that row.
pub proof fn law_rows_are_looked_up_before_they_are_written<E>(
    state: BufferView,
    action: FlushAction<(), E>,
    column: Seq<char>,
    key: Seq<u8>,
)
    requires
        state.canonical.contains_key(key),
        state.canonical[key].dirty,
        state.canonical[key].needs_load,
        if state.to_load() == Set::<Seq<u8>>::empty() {
            writes(action, state, column)
        } else {
            flush::loads(action, state.to_load())
        },
    ensures
        action matches FlushAction::Load { key_chunks, .. } && flush::is_asked_for(key_chunks@, key),
{
    assert(state.to_load().contains(key));
    flush::law_loads_ask_for_the_rows(action, state.to_load());
}

/// A flush looks up the dirty rows that have to be loaded and writes the dirty rows, and
/// no others.
pub proof fn law_dirty_rows_are_flushed(state: BufferView, key: Seq<u8>)
    ensures
        state.to_load().contains(key) <==> state.canonical.contains_key(key) && state.canonical[key].dirty
            && state.canonical[key].needs_load,
        state.dirty().contains(key) <==> state.canonical.contains_key(key) && state.canonical[key].dirty,
{
}

/// A load adds the bits that were found to a row that is held, and no others. The rows
/// that were looked up need not be loaded again, whether anything was found or not.
/// Nothing else changes.
pub proof fn law_load_adds_what_was_found(
    state: BufferView,
    keys: Seq<Seq<u8>>,
    found: Map<Seq<u8>, Set<u32>>,
    key: Seq<u8>,
)
    ensures
        ({
            let loaded = state.loaded(keys, found);
            &&& loaded.canonical.contains_key(key) == state.canonical.contains_key(key)
            &&& state.canonical.contains_key(key) ==> {
                let before = state.canonical[key];
                let after = loaded.canonical[key];
                &&& forall|bit: u32| #[trigger]
                    after.bits.contains(bit) <==> before.bits.contains(bit) || (found.contains_key(key)
                        && found[key].contains(bit))
                &&& after.needs_load <==> before.needs_load && !keys.contains(key)
                &&& after.bucket_id == before.bucket_id
                &&& after.max_cp == before.max_cp
                &&& after.dirty == before.dirty
            }
            &&& loaded.queued == state.queued
            &&& loaded.cps == state.cps
        }),
{
}

/// A flush that wrote everything leaves nothing dirty, and holds a row on exactly if it
/// has to be loaded or is not sealed by the watermark. Nothing else changes.
pub proof fn law_sealed_rows_are_dropped<P: BitmapIndexProcessor>(
    state: BufferView,
    processor: P,
    tx_hi: u64,
    key: Seq<u8>,
)
    ensures
        ({
            let settled = state.settled(processor, tx_hi);
            &&& settled.canonical.contains_key(key) <==> state.canonical.contains_key(key) && (
            state.canonical[key].needs_load || processor.sealed_at(state.canonical[key].bucket_id) > tx_hi)
            &&& settled.canonical.contains_key(key) ==> {
                let before = state.canonical[key];
                let after = settled.canonical[key];
                &&& !after.dirty
                &&& after.bits == before.bits
                &&& after.needs_load == before.needs_load
                &&& after.bucket_id == before.bucket_id
                &&& after.max_cp == before.max_cp
            }
            &&& settled.queued == state.queued
            &&& settled.cps == state.cps
        }),
{
}

/// A flush that has nothing to write drops the rows that the watermark seals; one that
/// has something to write changes nothing before it was written.
pub proof fn law_clean_flushes_drop_sealed_rows<P: BitmapIndexProcessor>(
    state: BufferView,
    processor: P,
    tx_hi: u64,
    key: Seq<u8>,
)
    ensures
        state.canonical.contains_key(key) && state.canonical[key].dirty ==> state.settled_if_clean(processor, tx_hi)
            == state,
        (forall|other: Seq<u8>| #[trigger]
            state.canonical.contains_key(other) ==> !state.canonical[other].dirty) ==> (state.settled_if_clean(
            processor,
            tx_hi,
        ).canonical.contains_key(key) <==> state.canonical.contains_key(key) && (state.canonical[key].needs_load
            || processor.sealed_at(state.canonical[key].bucket_id) > tx_hi)),
{
    if forall|other: Seq<u8>| #[trigger]
        state.canonical.contains_key(other) ==> !state.canonical[other].dirty {
        assert(state.dirty() =~= Set::empty());
    }
    if state.canonical.contains_key(key) && state.canonical[key].dirty {
        assert(state.dirty().contains(key));
        assert(state.dirty() != Set::<Seq<u8>>::empty()) by {
            assert(!Set::<Seq<u8>>::empty().contains(key));
        }
    }
}

/// Some entry of the chunks writes the row, with all its bits, under the timestamp of its
/// latest checkpoint.
pub open spec fn is_sent(entry_chunks: Seq<Vec<Entry>>, state: BufferView, key: Seq<u8>, column: Seq<char>) -> bool {
    exists|c: int, j: int|
        0 <= c < entry_chunks.len() && 0 <= j < entry_chunks[c]@.len() && rows::writes_row(
            #[trigger] entry_chunks[c]@[j],
            key,
            column,
            state.canonical[key].bits,
            state.cps[state.canonical[key].max_cp],
        )
}

/// A flush writes every dirty row with all its bits, under the timestamp of its latest
/// checkpoint, and nothing else, no row twice, in chunks of at most five thousand, ten at
/// a time. Where no row is dirty it is over.
pub proof fn law_flush_writes_the_dirty_rows<E>(action: FlushAction<(), E>, state: BufferView, column: Seq<char>)
    requires
        writes(action, state, column),
    ensures
        (forall|key: Seq<u8>| #[trigger] state.canonical.contains_key(key) ==> !state.canonical[key].dirty)
            ==> action == FlushAction::<(), E>::Done(Ok(())),
        (exists|key: Seq<u8>| #[trigger] state.canonical.contains_key(key) && state.canonical[key].dirty) ==> {
            &&& action matches FlushAction::Write { entry_count, entry_chunks, concurrency }
            &&& concurrency == 10
            &&& forall|key: Seq<u8>| #[trigger]
                state.canonical.contains_key(key) && state.canonical[key].dirty ==> is_sent(
                    entry_chunks@,
                    state,
                    key,
                    column,
                )
            &&& forall|c: int, j: int|
                0 <= c < entry_chunks@.len() && 0 <= j < entry_chunks@[c]@.len() ==> {
                    let entry = #[trigger] entry_chunks@[c]@[j];
                    let row = state.canonical[entry.row_key@];
                    &&& state.canonical.contains_key(entry.row_key@)
                    &&& row.dirty
                    &&& rows::writes_row(entry, entry.row_key@, column, row.bits, state.cps[row.max_cp])
                }
            &&& forall|c: int| 0 <= c < entry_chunks@.len() ==> 0 < (#[trigger] entry_chunks@[c])@.len() <= 5000
            &&& forall|c: int, j: int, d: int, k: int|
                #![trigger entry_chunks@[c]@[j], entry_chunks@[d]@[k]]
                0 <= c < entry_chunks@.len() && 0 <= j < entry_chunks@[c]@.len() && 0 <= d < entry_chunks@.len()
                    && 0 <= k < entry_chunks@[d]@.len() && entry_chunks@[c]@[j].row_key@
                    == entry_chunks@[d]@[k].row_key@ ==> c == d && j == k
            &&& entry_count == chunks::contents(entry_chunks@).flatten().len()
        },
{
    let dirty = state.dirty();
    if forall|key: Seq<u8>| #[trigger] state.canonical.contains_key(key) ==> !state.canonical[key].dirty {
        assert(dirty =~= Set::empty());
    }
    if exists|key: Seq<u8>| #[trigger] state.canonical.contains_key(key) && state.canonical[key].dirty {
        let some = choose|key: Seq<u8>| #[trigger]
            state.canonical.contains_key(key) && state.canonical[key].dirty;
        assert(dirty.contains(some));
        assert(dirty != Set::<Seq<u8>>::empty()) by {
            assert(!Set::<Seq<u8>>::empty().contains(some));
        }
        if let FlushAction::Write { entry_count, entry_chunks, concurrency } = action {
            let cutting = chunks::contents(entry_chunks@);
            let entries = cutting.flatten();
            let size = FLUSH_WRITE_CHUNK_SIZE as nat;
            let names = entries.map_values(|entry: Entry| entry.row_key@);
            assert forall|key: Seq<u8>| #[trigger]
                state.canonical.contains_key(key) && state.canonical[key].dirty implies is_sent(
                entry_chunks@,
                state,
                key,
                column,
            ) by {
                assert(dirty.contains(key));
                assert(names.to_set().contains(key));
                let i = choose|i: int| 0 <= i < names.len() && names[i] == key;
                let (c, j) = chunks::law_every_item_is_in_a_chunk(entries, size, i);
                assert(entry_chunks@[c]@ == cutting[c]);
                assert(entry_chunks@[c]@[j] == entries[i]);
                assert(rows::writes_row(
                    entry_chunks@[c]@[j],
                    key,
                    column,
                    state.canonical[key].bits,
                    state.cps[state.canonical[key].max_cp],
                ));
            }
            assert forall|c: int, j: int| 0 <= c < entry_chunks@.len() && 0 <= j < entry_chunks@[c]@.len() implies {
                let entry = #[trigger] entry_chunks@[c]@[j];
                let row = state.canonical[entry.row_key@];
                &&& state.canonical.contains_key(entry.row_key@)
                &&& row.dirty
                &&& rows::writes_row(entry, entry.row_key@, column, row.bits, state.cps[row.max_cp])
            } by {
                chunks::law_chunks_are_runs(entries, size, c);
                assert(entry_chunks@[c]@ == cutting[c]);
                assert(cutting[c][j] == entries[c * size + j]);
                assert(names.to_set().contains(names[c * size + j]));
                assert(dirty.contains(names[c * size + j]));
            }
            assert forall|c: int| 0 <= c < entry_chunks@.len() implies 0 < (#[trigger] entry_chunks@[c])@.len()
                <= 5000 by {
                chunks::law_chunks_are_runs(entries, size, c);
                assert(entry_chunks@[c]@ == cutting[c]);
            }
            assert forall|c: int, j: int, d: int, k: int|
                #![trigger entry_chunks@[c]@[j], entry_chunks@[d]@[k]]
                0 <= c < entry_chunks@.len() && 0 <= j < entry_chunks@[c]@.len() && 0 <= d < entry_chunks@.len() && 0
                    <= k < entry_chunks@[d]@.len() && entry_chunks@[c]@[j].row_key@ == entry_chunks@[d]@[k].row_key@ implies c
                == d && j == k by {
                chunks::law_chunks_are_runs(entries, size, c);
                chunks::law_chunks_are_runs(entries, size, d);
                assert(entry_chunks@[c]@ == cutting[c] && entry_chunks@[d]@ == cutting[d]);
                assert(cutting[c][j] == entries[c * size + j] && cutting[d][k] == entries[d * size + k]);
                assert(names[c * size + j] == names[d * size + k]);
                assert(c == d && j == k) by (nonlinear_arith)
                    requires
                        c * size + j == d * size + k,
                        0 <= j < size,
                        0 <= k < size,
                        size > 0,
                ;
            }
        }
    }
}

/// A buffer can be settled if every bucket that it holds rows of can be sealed.
pub proof fn law_buffers_can_be_settled<P: BitmapIndexProcessor>(state: BufferView, processor: P)
    requires
        forall|key: Seq<u8>| #[trigger]
            state.canonical.contains_key(key) ==> processor.can_seal(state.canonical[key].bucket_id),
    ensures
        state.can_settle(processor),
{
}

} // verus!
