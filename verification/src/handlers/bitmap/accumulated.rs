//! The accumulated bits of a pipeline.
//!
//! A cell of a bitmap table keeps one version only, so each flush writes the whole
//! accumulated bitmap of a row, not a delta. [`AccumulatedState`] therefore holds
//! every bit that this process OR'd in, row by row, until the row's bucket is
//! sealed. A [`BitmapIndexBatch`] is the delta of one commit.
//!
//! ## Correctness
//!
//! Commits come in order, and one that failed is tried again with the same batch and
//! the same watermark. Merging is idempotent and monotonic, so that is safe: the batch
//! adds nothing to rows that it was merged into before. A cell is versioned by the
//! timestamp of the latest contributing checkpoint, so a later write supersedes an
//! earlier one, and it is always a superset.
//!
//! A flush drops the rows that are written and whose bucket is sealed, also where it
//! failed on others. What it did may be tried again: after a write that failed, and
//! after one that succeeded too, as the watermark is written later. A row that was
//! dropped is therefore set aside until a later watermark arrives; a batch that
//! contributes to it takes it up again.
//!
//! After a restart, the rows of the buckets that straddle the persisted watermark
//! may hold bits that this process has never seen. They are loaded once, before
//! the row is first written, and OR'd in.
//!
//! ## Flushing
//!
//! A flush alternates reads and writes with decisions. The decisions are made here:
//! [`AccumulatedState::flush`] takes what happened and says what to do next. It is
//! first called with [`FlushEvent::Start`].

use roaring::RoaringBitmap;
use vstd::prelude::*;

use crate::bigtable::flush;
use crate::bigtable::flush::FlushAction;
use crate::bigtable::flush::FlushError;
use crate::bigtable::rows;
use crate::bigtable::rows::Entry;
use crate::bigtable::rows::FetchedRow;
use crate::bigtable::store::processor;
use crate::bigtable::store::BitmapIndexProcessor;
use crate::bigtable::store::CommitterWatermark;
use crate::bitmap;
use crate::chunks;
use crate::handlers::bitmap::batch;
use crate::handlers::bitmap::batch::BitmapIndexBatch;
use crate::handlers::bitmap::batch::BitmapIndexValue;
use crate::handlers::bitmap::batch::RowView;
use crate::row_map;
use crate::row_map::RowMap;

verus! {

/// What happened during a flush.
pub enum FlushEvent<E> {
    /// The flush begins.
    Start,
    /// The rows of one chunk of [`FlushAction::Load`] were read, or could not be.
    Loaded { keys: Vec<Vec<u8>>, fetched: Result<Vec<FetchedRow>, E> },
    /// Every chunk of [`FlushAction::Load`] was read.
    LoadsDone,
    /// Every chunk of [`FlushAction::Write`], `entry_count` entries in all, was
    /// written or could not be.
    Written { entry_count: usize, results: Vec<ChunkResult<E>> },
}

/// How one chunk of a write fared.
pub struct ChunkResult<E> {
    pub keys: Vec<Vec<u8>>,
    pub outcome: WriteOutcome<E>,
}

/// How a write fared.
pub enum WriteOutcome<E> {
    Written,
    /// Every row was written but those at `failed_keys`.
    Partial { failed_keys: Vec<Vec<u8>>, error: E },
    /// Nothing is known to be written.
    Failed { error: E },
}

impl<E> ChunkResult<E> {
    /// The row at `key` was written with this chunk.
    pub open spec fn wrote(&self, key: Seq<u8>) -> bool {
        &&& chunks::contents(self.keys@).contains(key)
        &&& match self.outcome {
            WriteOutcome::Written => true,
            WriteOutcome::Partial { failed_keys, .. } => !chunks::contents(failed_keys@).contains(key),
            WriteOutcome::Failed { .. } => false,
        }
    }

    /// The error that the chunk's write ended with.
    pub open spec fn error(&self) -> Option<E> {
        match self.outcome {
            WriteOutcome::Written => None,
            WriteOutcome::Partial { error, .. } => Some(error),
            WriteOutcome::Failed { error } => Some(error),
        }
    }
}

/// The keys of the rows that were written.
pub open spec fn written_keys<E>(results: Seq<ChunkResult<E>>) -> Set<Seq<u8>> {
    Set::new(|key: Seq<u8>| exists|i: int| 0 <= i < results.len() && #[trigger] results[i].wrote(key))
}

/// The first error among the results.
pub open spec fn first_error<E>(results: Seq<ChunkResult<E>>) -> Option<E>
    decreases results.len(),
{
    if results.len() == 0 {
        None
    } else if results[0].error() is Some {
        results[0].error()
    } else {
        first_error(results.drop_first())
    }
}

/// The accumulated rows of a pipeline, with the keys of those that changed since
/// they were last written, and of those that still have to be loaded.
#[verifier::ext_equal]
pub struct AccumulatedView {
    pub rows: Map<Seq<u8>, RowView>,
    pub dirty: Set<Seq<u8>>,
    pub needs_load: Set<Seq<u8>>,
    /// Rows that were dropped, in case the commit is tried again.
    pub aside: Map<Seq<u8>, RowView>,
    /// The `tx_hi` of the latest watermark at which rows were dropped.
    pub aside_tx_hi: u64,
}

impl AccumulatedView {
    /// A row that is dirty, or has to be loaded, is held; one that is held is not set
    /// aside.
    pub open spec fn wf(self) -> bool {
        &&& self.dirty.subset_of(self.rows.dom())
        &&& self.needs_load.subset_of(self.rows.dom())
        &&& self.aside.dom().disjoint(self.rows.dom())
    }

    /// Nothing is accumulated.
    pub open spec fn empty() -> Self {
        AccumulatedView {
            rows: Map::empty(),
            dirty: Set::empty(),
            needs_load: Set::empty(),
            aside: Map::empty(),
            aside_tx_hi: 0,
        }
    }

    /// The rows that are held or set aside.
    pub open spec fn known(self) -> Map<Seq<u8>, RowView> {
        self.aside.union_prefer_right(self.rows)
    }

    /// The bits of the row at `key`; none where there is no row.
    pub open spec fn bits(self, key: Seq<u8>) -> Set<u32> {
        if self.known().contains_key(key) {
            self.known()[key].bits
        } else {
            Set::empty()
        }
    }

    /// The state after a batch was merged. A row that was set aside is taken up again.
    /// A row is dirty if its bits grew. A row that is new has to be loaded if its
    /// bucket straddles the startup watermark.
    pub open spec fn merged<P: BitmapIndexProcessor>(
        self,
        processor: P,
        startup_tx_hi: u64,
        batch: Map<Seq<u8>, RowView>,
    ) -> Self {
        AccumulatedView {
            rows: Map::new(
                |key: Seq<u8>| self.rows.contains_key(key) || batch.contains_key(key),
                |key: Seq<u8>|
                    if !batch.contains_key(key) {
                        self.rows[key]
                    } else if self.known().contains_key(key) {
                        batch::absorbed(self.known()[key], batch[key])
                    } else {
                        batch[key]
                    },
            ),
            dirty: Set::new(
                |key: Seq<u8>|
                    self.dirty.contains(key) || (batch.contains_key(key) && !batch[key].bits.subset_of(
                        self.bits(key),
                    )),
            ),
            needs_load: Set::new(
                |key: Seq<u8>|
                    self.needs_load.contains(key) || (batch.contains_key(key) && !self.known().contains_key(
                        key,
                    ) && processor::straddles(processor, startup_tx_hi, batch[key].bucket_id)),
            ),
            aside: self.aside.remove_keys(batch.dom()),
            aside_tx_hi: self.aside_tx_hi,
        }
    }

    /// The rows to load before a flush writes.
    pub open spec fn to_load(self) -> Set<Seq<u8>> {
        self.dirty.intersect(self.needs_load)
    }

    /// The state after the rows at `keys` were looked up and `found` was there.
    /// What was found is OR'd into the rows that are still held.
    pub open spec fn loaded(self, keys: Seq<Seq<u8>>, found: Map<Seq<u8>, Set<u32>>) -> Self {
        AccumulatedView {
            rows: Map::new(
                |key: Seq<u8>| self.rows.contains_key(key),
                |key: Seq<u8>|
                    if found.contains_key(key) {
                        RowView { bits: self.rows[key].bits.union(found[key]), ..self.rows[key] }
                    } else {
                        self.rows[key]
                    },
            ),
            needs_load: self.needs_load.difference(keys.to_set()),
            ..self
        }
    }

    /// `entries` are what has to be written: one per dirty row, holding the row's
    /// bits, under the timestamp of the latest checkpoint that contributed to it.
    pub open spec fn written_as(self, column: Seq<char>, entries: Seq<Entry>) -> bool {
        let keys = entries.map_values(|entry: Entry| entry.row_key@);
        &&& keys.no_duplicates()
        &&& keys.to_set() == self.dirty
        &&& forall|i: int| 0 <= i < entries.len() ==> (#[trigger] entries[i]).column@ == column
        &&& forall|i: int|
            0 <= i < entries.len() ==> {
                let row = self.rows[(#[trigger] entries[i]).row_key@];
                &&& bitmap::stored_bits(entries[i].value@) == Some(row.bits)
                &&& entries[i].timestamp_ms == row.max_ts_ms
            }
    }

    /// The state after the rows at `keys` were written.
    pub open spec fn cleaned(self, keys: Set<Seq<u8>>) -> Self {
        AccumulatedView { dirty: self.dirty.difference(keys), ..self }
    }

    /// The row at `key` is of no more use: it is safely written, owes no load, and
    /// no transaction from `tx_hi` on can change it.
    pub open spec fn evictable<P: BitmapIndexProcessor>(self, processor: P, tx_hi: u64, key: Seq<u8>) -> bool {
        &&& !self.dirty.contains(key)
        &&& !self.needs_load.contains(key)
        &&& processor.sealed_at(self.rows[key].bucket_id) <= tx_hi
    }

    /// The state without the rows that are of no more use. They are set aside. If
    /// `tx_hi` is later than when rows were dropped before, those are forgotten.
    pub open spec fn evicted<P: BitmapIndexProcessor>(self, processor: P, tx_hi: u64) -> Self {
        let later = tx_hi > self.aside_tx_hi;
        AccumulatedView {
            rows: Map::new(
                |key: Seq<u8>| self.rows.contains_key(key) && !self.evictable(processor, tx_hi, key),
                |key: Seq<u8>| self.rows[key],
            ),
            aside: Map::new(
                |key: Seq<u8>|
                    if self.rows.contains_key(key) {
                        self.evictable(processor, tx_hi, key)
                    } else {
                        !later && self.aside.contains_key(key)
                    },
                |key: Seq<u8>| self.known()[key],
            ),
            aside_tx_hi: if later { tx_hi } else { self.aside_tx_hi },
            ..self
        }
    }

    /// The state when a flush goes on to write: where there is nothing to write, it is
    /// over, and rows that are of no more use are dropped.
    pub open spec fn evicted_if_clean<P: BitmapIndexProcessor>(self, processor: P, tx_hi: u64) -> Self {
        if self.dirty == Set::<Seq<u8>>::empty() {
            self.evicted(processor, tx_hi)
        } else {
            self
        }
    }

    /// It can be told which rows are of no more use.
    pub open spec fn can_evict<P: BitmapIndexProcessor>(self, processor: P) -> bool {
        forall|key: Seq<u8>| #[trigger]
            self.rows.contains_key(key) && !self.dirty.contains(key) && !self.needs_load.contains(key)
                ==> processor.can_seal(self.rows[key].bucket_id)
    }

    /// A flush can go on to write, in chunks of `chunk_size`, or is over.
    pub open spec fn can_write<P: BitmapIndexProcessor>(self, processor: P, chunk_size: usize) -> bool {
        if self.dirty == Set::<Seq<u8>>::empty() {
            self.can_evict(processor)
        } else {
            chunk_size > 0
        }
    }

    /// A flush can begin: there are rows to load, or it can go on to write.
    pub open spec fn can_start<P: BitmapIndexProcessor>(self, processor: P, chunk_size: usize) -> bool {
        self.to_load() != Set::<Seq<u8>>::empty() || self.can_write(processor, chunk_size)
    }
}

/// The set of a list of keys.
fn key_set(keys: &Vec<Vec<u8>>) -> (set: RowMap<()>)
    ensures
        set.wf(),
        set@.dom() == chunks::contents(keys@).to_set(),
{
    let mut set: RowMap<()> = RowMap::new();
    let ghost listed = chunks::contents(keys@);
    let mut i: usize = 0;
    assert(set@.dom() =~= listed.take(0).to_set());
    while i < keys.len()
        invariant
            i <= keys.len(),
            listed == chunks::contents(keys@),
            set.wf(),
            set@.dom() == listed.take(i as int).to_set(),
        decreases keys.len() - i,
    {
        proof {
            row_map::lemma_one_more(listed, i as int);
        }
        set.insert(row_map::copy_bytes(&keys[i]), ());
        i = i + 1;
    }
    assert(listed.take(i as int) =~= listed);
    set
}

/// How a pipeline's rows are kept and written.
pub struct FlushSettings<P> {
    pub table: &'static str,
    pub column: &'static str,
    /// Knows where a bucket is sealed.
    pub processor: P,
    /// The persisted watermark's `tx_hi` at startup. Only rows whose bucket
    /// straddles it can have bits in the table that this process has not seen.
    pub startup_tx_hi: u64,
    /// Most entries in one write request.
    pub flush_write_chunk_size: usize,
    /// Most write requests in flight.
    pub flush_write_concurrency: usize,
}

/// The accumulated bits of one pipeline.
pub struct AccumulatedState<P> {
    settings: FlushSettings<P>,
    /// The accumulated bits, by row.
    rows: RowMap<BitmapIndexValue>,
    /// The keys of the rows that changed since they were last written.
    dirty: RowMap<()>,
    /// The keys of the rows that an earlier process may have written and that
    /// have not been loaded yet.
    needs_load_from_db: RowMap<()>,
    /// Rows that were dropped, by row.
    aside: RowMap<BitmapIndexValue>,
    /// The `tx_hi` of the latest watermark at which rows were dropped.
    aside_tx_hi: u64,
}

/// The action is to write exactly the dirty rows of `state`, in chunks; where
/// there are none, the flush is over.
pub open spec fn writes<P, E>(
    action: FlushAction<usize, E>,
    state: AccumulatedView,
    settings: FlushSettings<P>,
) -> bool {
    if state.dirty == Set::<Seq<u8>>::empty() {
        action == FlushAction::<usize, E>::Done(Ok(0))
    } else {
        &&& action matches FlushAction::Write { entry_count, entry_chunks, concurrency }
        &&& {
            let entries = chunks::contents(entry_chunks@).flatten();
            &&& state.written_as(settings.column@, entries)
            &&& entry_count == entries.len()
            &&& chunks::contents(entry_chunks@) == chunks::cut(
                entries,
                settings.flush_write_chunk_size as nat,
            )
            &&& concurrency == settings.flush_write_concurrency
        }
    }
}

impl<P> View for AccumulatedState<P> {
    type V = AccumulatedView;

    closed spec fn view(&self) -> AccumulatedView {
        AccumulatedView {
            rows: batch::row_views(self.rows@),
            dirty: self.dirty@.dom(),
            needs_load: self.needs_load_from_db@.dom(),
            aside: batch::row_views(self.aside@),
            aside_tx_hi: self.aside_tx_hi,
        }
    }
}

impl<P> AccumulatedState<P> {
    spec fn inv(&self) -> bool {
        &&& self.rows.wf()
        &&& batch::keyed(self.rows@)
        &&& self.dirty.wf()
        &&& self.needs_load_from_db.wf()
        &&& self.aside.wf()
        &&& batch::keyed(self.aside@)
    }

    /// A row that is dirty, or has to be loaded, is held; one that is held is not set
    /// aside.
    pub closed spec fn wf(&self) -> bool {
        &&& self.inv()
        &&& self@.wf()
    }

    /// How the rows are kept and written.
    pub closed spec fn config(&self) -> FlushSettings<P> {
        self.settings
    }
}

impl<P: BitmapIndexProcessor> AccumulatedState<P> {
    /// A state without rows.
    pub fn new(
        table: &'static str,
        column: &'static str,
        processor: P,
        startup_tx_hi: u64,
        flush_write_chunk_size: usize,
        flush_write_concurrency: usize,
    ) -> (state: Self)
        ensures
            state.wf(),
            state@ == AccumulatedView::empty(),
            state.config() == (FlushSettings {
                table,
                column,
                processor,
                startup_tx_hi,
                flush_write_chunk_size,
                flush_write_concurrency,
            }),
    {
        let state = AccumulatedState {
            settings: FlushSettings {
                table,
                column,
                processor,
                startup_tx_hi,
                flush_write_chunk_size,
                flush_write_concurrency,
            },
            rows: RowMap::new(),
            dirty: RowMap::new(),
            needs_load_from_db: RowMap::new(),
            aside: RowMap::new(),
            aside_tx_hi: 0,
        };
        assert(state@ =~= AccumulatedView::empty());
        state
    }

    /// A state without rows, for the table and column of a processor.
    pub fn for_processor(
        processor: P,
        startup_tx_hi: u64,
        flush_write_chunk_size: usize,
        flush_write_concurrency: usize,
    ) -> (state: Self)
        ensures
            state.wf(),
            state@ == AccumulatedView::empty(),
            state.config().table@ == processor.table_name(),
            state.config().column@ == processor.column_name(),
            state.config().processor == processor,
            state.config().startup_tx_hi == startup_tx_hi,
            state.config().flush_write_chunk_size == flush_write_chunk_size,
            state.config().flush_write_concurrency == flush_write_concurrency,
    {
        let table = processor.table();
        let column = processor.column();
        Self::new(
            table,
            column,
            processor,
            startup_tx_hi,
            flush_write_chunk_size,
            flush_write_concurrency,
        )
    }

    /// How the rows are kept and written.
    pub fn settings(&self) -> (settings: &FlushSettings<P>)
        ensures
            *settings == self.config(),
    {
        &self.settings
    }

    /// Whether the row at `row_key` is held.
    pub fn contains_row(&self, row_key: &[u8]) -> (held: bool)
        requires
            self.wf(),
        ensures
            held == self@.rows.contains_key(row_key@),
    {
        self.rows.contains_key(row_key)
    }

    /// OR the batch into the accumulated rows. Applying the same batch again adds
    /// no bits, so rows that were written in between do not become dirty again.
    pub fn merge_batch(&mut self, batch: &BitmapIndexBatch)
        requires
            old(self).wf(),
            batch.wf(),
            forall|key: Seq<u8>| #[trigger]
                batch@.contains_key(key) && !old(self)@.known().contains_key(key)
                    ==> processor::can_find_low_end(old(self).config().processor, batch@[key].bucket_id),
        ensures
            final(self).wf(),
            final(self).config() == old(self).config(),
            final(self)@ == old(self)@.merged(old(self).config().processor, old(self).config().startup_tx_hi, batch@),
    {
        let ghost before = self@;
        let ghost all = batch@;
        let incoming_rows = batch.rows();
        let len: usize = incoming_rows.len();
        let ghost keys = incoming_rows.keys();
        let mut i: usize = 0;
        proof {
            incoming_rows.lemma_walk();
            assert(self@ =~= before.merged(
                self.settings.processor,
                self.settings.startup_tx_hi,
                all.restrict(keys.take(0).to_set()),
            ));
        }
        while i < len
            invariant
                i <= len == keys.len(),
                keys == incoming_rows.keys(),
                keys.no_duplicates(),
                incoming_rows.wf(),
                batch::keyed(incoming_rows@),
                batch::row_views(incoming_rows@) == all,
                self.wf(),
                self.settings == old(self).settings,
                self@ == before.merged(
                    self.settings.processor,
                    self.settings.startup_tx_hi,
                    all.restrict(keys.take(i as int).to_set()),
                ),
                forall|key: Seq<u8>| #[trigger]
                    all.contains_key(key) && !before.known().contains_key(key)
                        ==> processor::can_find_low_end(self.settings.processor, all[key].bucket_id),
            decreases len - i,
        {
            let row_key = incoming_rows.key_at(i);
            let incoming = incoming_rows.value_at(i);
            let ghost key = keys[i as int];
            let ghost partial = self@;
            proof {
                incoming_rows.lemma_walk();
                assert(all.contains_key(key));
                assert(all[key] == incoming@);
                assert(!keys.take(i as int).to_set().contains(key));
                assert(partial.rows.contains_key(key) == before.rows.contains_key(key));
                assert(partial.aside.contains_key(key) == before.aside.contains_key(key));
            }
            let ghost wanted = before.merged(
                self.settings.processor,
                self.settings.startup_tx_hi,
                all.restrict(keys.take(i + 1).to_set()),
            );
            if !self.rows.contains_key(row_key) {
                match self.aside.remove(row_key) {
                    Some(row) => {
                        self.rows.insert(row_map::copy_bytes(row_key), row);
                    },
                    None => {
                        if processor::bucket_straddles_startup(
                            &self.settings.processor,
                            self.settings.startup_tx_hi,
                            incoming.bucket_id,
                        ) {
                            self.needs_load_from_db.insert(row_map::copy_bytes(row_key), ());
                        }
                    },
                }
            }
            let ghost taken_up = self@;
            proof {
                assert(taken_up.aside =~= partial.aside.remove(key));
                assert(taken_up.rows =~= if partial.aside.contains_key(key) {
                    partial.rows.insert(key, partial.aside[key])
                } else {
                    partial.rows
                });
            }
            let grew = batch::absorb_at(&mut self.rows, incoming);
            if grew {
                self.dirty.insert(row_map::copy_bytes(row_key), ());
            }
            proof {
                row_map::lemma_one_more(keys, i as int);
                assert(self@.rows =~= wanted.rows);
                assert(self@.dirty =~= wanted.dirty);
                assert(self@.needs_load =~= wanted.needs_load);
                assert(self@.aside =~= wanted.aside);
            }
            i = i + 1;
        }
        proof {
            incoming_rows.lemma_walk();
            assert(keys.take(len as int) =~= keys);
            assert(all.restrict(keys.to_set()) =~= all);
        }
    }

    /// The keys of the rows to load before a flush writes.
    fn keys_to_load(&self) -> (keys: Vec<Vec<u8>>)
        requires
            self.wf(),
        ensures
            chunks::contents(keys@).no_duplicates(),
            chunks::contents(keys@).to_set() == self@.to_load(),
    {
        let mut keys: Vec<Vec<u8>> = Vec::new();
        let len: usize = self.dirty.len();
        let ghost dirty = self.dirty.keys();
        let ghost needs_load = self@.needs_load;
        let mut i: usize = 0;
        proof {
            self.dirty.lemma_walk();
            assert(chunks::contents(keys@).to_set() =~= dirty.take(0).to_set().intersect(needs_load));
        }
        while i < len
            invariant
                i <= len == dirty.len(),
                self.wf(),
                dirty == self.dirty.keys(),
                dirty.no_duplicates(),
                needs_load == self.needs_load_from_db@.dom(),
                chunks::contents(keys@).no_duplicates(),
                chunks::contents(keys@).to_set() == dirty.take(i as int).to_set().intersect(needs_load),
            decreases len - i,
        {
            let key = self.dirty.key_at(i);
            let ghost listed = chunks::contents(keys@);
            proof {
                row_map::lemma_one_more(dirty, i as int);
                assert(!dirty.take(i as int).to_set().contains(key@));
            }
            if self.needs_load_from_db.contains_key(key) {
                keys.push(row_map::copy_bytes(key));
                proof {
                    let more = chunks::contents(keys@);
                    assert(more =~= listed.push(key@));
                    assert(!listed.to_set().contains(key@));
                    row_map::lemma_one_more(more, listed.len() as int);
                    assert(more.take(more.len() as int) =~= more);
                    assert(more.take(listed.len() as int) =~= listed);
                }
            }
            assert(chunks::contents(keys@).to_set() =~= dirty.take(i + 1).to_set().intersect(needs_load));
            i = i + 1;
        }
        proof {
            self.dirty.lemma_walk();
            assert(dirty.take(len as int) =~= dirty);
        }
        keys
    }

    /// One entry for each dirty row.
    fn dirty_entries(&mut self) -> (entries: Vec<Entry>)
        requires
            old(self).wf(),
        ensures
            final(self).wf(),
            final(self).config() == old(self).config(),
            final(self)@ == old(self)@,
            old(self)@.written_as(old(self).config().column@, entries@),
    {
        let mut entries: Vec<Entry> = Vec::new();
        let len: usize = self.dirty.len();
        let ghost dirty = self.dirty.keys();
        let ghost before = self@;
        let mut i: usize = 0;
        proof {
            self.dirty.lemma_walk();
        }
        while i < len
            invariant
                i <= len == dirty.len(),
                self.wf(),
                self.settings == old(self).settings,
                self@ == before,
                dirty == self.dirty.keys(),
                dirty.to_set() == before.dirty,
                entries@.len() == i,
                forall|j: int|
                    0 <= j < i ==> {
                        let row = before.rows[(#[trigger] entries@[j]).row_key@];
                        &&& entries@[j].row_key@ == dirty[j]
                        &&& entries@[j].column@ == self.settings.column@
                        &&& bitmap::stored_bits(entries@[j].value@) == Some(row.bits)
                        &&& entries@[j].timestamp_ms == row.max_ts_ms
                    },
            decreases len - i,
        {
            let key = self.dirty.key_at(i);
            let ghost rows_before = self.rows@;
            assert(dirty.to_set().contains(dirty[i as int]));
            match self.rows.get_mut(key) {
                Some(row) => {
                    bitmap::optimize_bitmap(&mut row.bitmap);
                    let value = bitmap::write_bitmap(&row.bitmap);
                    let timestamp_ms: u64 = row.max_ts_ms;
                    entries.push(
                        Entry {
                            row_key: row_map::copy_bytes(key),
                            column: self.settings.column,
                            value,
                            timestamp_ms,
                        },
                    );
                },
                None => {},
            }
            assert(batch::row_views(self.rows@) =~= batch::row_views(rows_before));
            i = i + 1;
        }
        proof {
            self.dirty.lemma_walk();
            assert(entries@.map_values(|entry: Entry| entry.row_key@) =~= dirty);
        }
        entries
    }

    /// Write the dirty rows, if there are any; or else drop the rows that are of no
    /// more use.
    fn next_write<E>(&mut self, tx_hi: u64) -> (action: FlushAction<usize, E>)
        requires
            old(self).wf(),
            old(self)@.can_write(
                old(self).config().processor,
                old(self).config().flush_write_chunk_size,
            ),
        ensures
            final(self).wf(),
            final(self).config() == old(self).config(),
            final(self)@ == old(self)@.evicted_if_clean(old(self).config().processor, tx_hi),
            writes(action, old(self)@, old(self).config()),
    {
        let entries = self.dirty_entries();
        let ghost listed = entries@;
        let ghost keys = listed.map_values(|entry: Entry| entry.row_key@);
        let entry_count: usize = entries.len();
        if entry_count == 0 {
            assert(keys.to_set() =~= Set::empty());
            self.evict(tx_hi);
            return FlushAction::Done(Ok(0));
        }
        assert(keys.to_set().contains(keys[0]));
        let entry_chunks = chunks::into_chunks(entries, self.settings.flush_write_chunk_size);
        proof {
            chunks::lemma_cut_is_a_partition(listed, self.settings.flush_write_chunk_size as nat);
        }
        FlushAction::Write {
            entry_count,
            entry_chunks,
            concurrency: self.settings.flush_write_concurrency,
        }
    }

    /// Load the rows that need it, or else write.
    fn start_flush<E>(&mut self, tx_hi: u64) -> (action: FlushAction<usize, E>)
        requires
            old(self).wf(),
            old(self)@.can_start(
                old(self).config().processor,
                old(self).config().flush_write_chunk_size,
            ),
        ensures
            final(self).wf(),
            final(self).config() == old(self).config(),
            final(self)@ == old(self)@.evicted_if_clean(old(self).config().processor, tx_hi),
            if old(self)@.to_load() == Set::<Seq<u8>>::empty() {
                writes(action, old(self)@, old(self).config())
            } else {
                flush::loads(action, old(self)@.to_load())
            },
    {
        let keys = self.keys_to_load();
        let ghost listed = keys@;
        if keys.len() == 0 {
            assert(chunks::contents(listed).to_set() =~= Set::empty());
            return self.next_write(tx_hi);
        }
        assert(chunks::contents(listed).to_set().contains(chunks::contents(listed)[0]));
        let key_chunks = chunks::into_chunks(keys, flush::PRE_RESTART_LOAD_CHUNK_SIZE);
        proof {
            chunks::lemma_cut_is_a_partition(listed, flush::PRE_RESTART_LOAD_CHUNK_SIZE as nat);
        }
        FlushAction::Load { key_chunks, concurrency: flush::PRE_RESTART_LOAD_CONCURRENCY }
    }

    /// Take note that the rows at `keys` were looked up.
    fn mark_loaded(&mut self, keys: &Vec<Vec<u8>>)
        requires
            old(self).wf(),
        ensures
            final(self).wf(),
            final(self).config() == old(self).config(),
            final(self)@ == (AccumulatedView {
                needs_load: old(self)@.needs_load.difference(chunks::contents(keys@).to_set()),
                ..old(self)@
            }),
    {
        let ghost before = self@;
        let ghost listed = chunks::contents(keys@);
        let mut i: usize = 0;
        assert(self@.needs_load =~= before.needs_load.difference(listed.take(0).to_set()));
        while i < keys.len()
            invariant
                i <= keys.len(),
                listed == chunks::contents(keys@),
                self.wf(),
                self.settings == old(self).settings,
                self@.rows == before.rows,
                self@.dirty == before.dirty,
                self@.aside == before.aside,
                self@.aside_tx_hi == before.aside_tx_hi,
                self@.needs_load == before.needs_load.difference(listed.take(i as int).to_set()),
            decreases keys.len() - i,
        {
            proof {
                row_map::lemma_one_more(listed, i as int);
            }
            self.needs_load_from_db.remove(&keys[i]);
            assert(self@.needs_load =~= before.needs_load.difference(listed.take(i + 1).to_set()));
            i = i + 1;
        }
        assert(listed.take(i as int) =~= listed);
    }

    /// OR what was found in the table into the rows that are held.
    fn or_found(&mut self, found: &RowMap<RoaringBitmap>)
        requires
            old(self).wf(),
            found.wf(),
        ensures
            final(self).wf(),
            final(self).config() == old(self).config(),
            final(self)@ == old(self)@.loaded(seq![], rows::bits_by_key(found@)),
    {
        let ghost before = self@;
        let ghost all = rows::bits_by_key(found@);
        let ghost keys = found.keys();
        let len: usize = found.len();
        let mut i: usize = 0;
        proof {
            found.lemma_walk();
            assert(self@ =~= before.loaded(seq![], all.restrict(keys.take(0).to_set())));
        }
        while i < len
            invariant
                i <= len == keys.len(),
                keys == found.keys(),
                keys.no_duplicates(),
                found.wf(),
                all == rows::bits_by_key(found@),
                self.wf(),
                self.settings == old(self).settings,
                self@ == before.loaded(seq![], all.restrict(keys.take(i as int).to_set())),
            decreases len - i,
        {
            let ghost key = keys[i as int];
            let ghost rows_before = self.rows@;
            proof {
                found.lemma_walk();
                row_map::lemma_one_more(keys, i as int);
                assert(!keys.take(i as int).to_set().contains(key));
                assert(all.contains_key(key));
            }
            match self.rows.get_mut(found.key_at(i)) {
                Some(row) => {
                    bitmap::or_bits(&mut row.bitmap, found.value_at(i));
                },
                None => {},
            }
            proof {
                let after = before.loaded(seq![], all.restrict(keys.take(i + 1).to_set())).rows;
                assert forall|k: Seq<u8>| #[trigger] self@.rows.contains_key(k) implies self@.rows[k]
                    == after[k] by {
                    assert(before.rows.contains_key(k));
                    if k == key {
                        assert(batch::row_views(rows_before)[k] == before.rows[k]);
                        assert(self@.rows[k].bits == before.rows[k].bits.union(all[k]));
                        assert(self@.rows[k] == RowView { bits: before.rows[k].bits.union(all[k]), ..before.rows[k] });
                        assert(all.restrict(keys.take(i + 1).to_set()).contains_key(k));
                    } else {
                        assert(self@.rows[k] == batch::row_views(rows_before)[k]);
                    }
                }
                assert(self@.rows =~= after);
            }
            i = i + 1;
        }
        proof {
            found.lemma_walk();
            assert(keys.take(len as int) =~= keys);
            assert(all.restrict(keys.to_set()) =~= all);
        }
    }

    /// OR the rows that an earlier process wrote, as far as they were asked for at
    /// `keys` and `fetched`, into the rows that are held.
    fn load_pre_restart_state<E>(&mut self, keys: Vec<Vec<u8>>, fetched: Result<Vec<FetchedRow>, E>) -> (action:
        FlushAction<usize, E>)
        requires
            old(self).wf(),
        ensures
            final(self).wf(),
            final(self).config() == old(self).config(),
            match fetched {
                Err(error) => {
                    &&& action == FlushAction::<usize, E>::Done(Err(FlushError::Load(error)))
                    &&& final(self)@ == old(self)@
                },
                Ok(fetched) => match rows::fetched_bits(
                    fetched@,
                    rows::column_bytes(old(self).config().column),
                ) {
                    None => {
                        &&& action matches FlushAction::Done(Err(FlushError::CorruptBitmap(_)))
                        &&& final(self)@ == old(self)@
                    },
                    Some(found) => {
                        &&& action == FlushAction::<usize, E>::Wait
                        &&& final(self)@ == old(self)@.loaded(chunks::contents(keys@), found)
                    },
                },
            },
    {
        let fetched = match fetched {
            Ok(fetched) => fetched,
            Err(error) => {
                return FlushAction::Done(Err(FlushError::Load(error)));
            },
        };
        let found = match rows::read_fetched(&fetched, self.settings.column) {
            Ok(found) => found,
            Err(corrupt) => {
                return FlushAction::Done(Err(FlushError::CorruptBitmap(corrupt.error)));
            },
        };
        self.mark_loaded(&keys);
        self.or_found(&found);
        assert(self@ =~= old(self)@.loaded(chunks::contents(keys@), rows::bits_by_key(found@)));
        FlushAction::Wait
    }

    /// Take the keys that a chunk wrote out of the dirty ones.
    fn mark_written<E>(&mut self, result: ChunkResult<E>) -> (error: Option<E>)
        requires
            old(self).wf(),
        ensures
            final(self).wf(),
            final(self).config() == old(self).config(),
            final(self)@ == old(self)@.cleaned(Set::new(|key: Seq<u8>| result.wrote(key))),
            error == result.error(),
    {
        let ghost before = self@;
        let ghost listed = chunks::contents(result.keys@);
        let (any_written, failed, error) = match result.outcome {
            WriteOutcome::Written => (true, RowMap::<()>::new(), None),
            WriteOutcome::Partial { failed_keys, error } => (true, key_set(&failed_keys), Some(error)),
            WriteOutcome::Failed { error } => (false, RowMap::<()>::new(), Some(error)),
        };
        let ghost spared = failed@.dom();
        if any_written {
            let mut i: usize = 0;
            assert(self@.dirty =~= before.dirty.difference(listed.take(0).to_set().difference(spared)));
            while i < result.keys.len()
                invariant
                    i <= result.keys.len(),
                    listed == chunks::contents(result.keys@),
                    failed.wf(),
                    spared == failed@.dom(),
                    self.wf(),
                    self.settings == old(self).settings,
                    self@.rows == before.rows,
                    self@.needs_load == before.needs_load,
                    self@.aside == before.aside,
                    self@.aside_tx_hi == before.aside_tx_hi,
                    self@.dirty == before.dirty.difference(
                        listed.take(i as int).to_set().difference(spared),
                    ),
                decreases result.keys.len() - i,
            {
                proof {
                    row_map::lemma_one_more(listed, i as int);
                }
                if !failed.contains_key(&result.keys[i]) {
                    self.dirty.remove(&result.keys[i]);
                }
                assert(self@.dirty =~= before.dirty.difference(
                    listed.take(i + 1).to_set().difference(spared),
                ));
                i = i + 1;
            }
            assert(listed.take(i as int) =~= listed);
        }
        assert(self@ =~= before.cleaned(Set::new(|key: Seq<u8>| result.wrote(key))));
        error
    }

    /// Drop the rows that are of no more use, and set them aside.
    fn evict(&mut self, tx_hi: u64)
        requires
            old(self).wf(),
            old(self)@.can_evict(old(self).config().processor),
        ensures
            final(self).wf(),
            final(self).config() == old(self).config(),
            final(self)@ == old(self)@.evicted(old(self).config().processor, tx_hi),
    {
        let ghost before = self@;
        let ghost keys = self.rows.keys();
        let ghost processor = self.settings.processor;
        let len: usize = self.rows.len();
        let mut keep: Vec<bool> = Vec::with_capacity(len);
        let mut i: usize = 0;
        while i < len
            invariant
                i <= len == keys.len(),
                *self == *old(self),
                self.wf(),
                before == self@,
                keys == self.rows.keys(),
                processor == self.settings.processor,
                before.can_evict(processor),
                keep@.len() == i,
                forall|j: int|
                    0 <= j < i ==> #[trigger] keep@[j] == !before.evictable(processor, tx_hi, keys[j]),
            decreases len - i,
        {
            let key = self.rows.key_at(i);
            let row = self.rows.value_at(i);
            proof {
                self.rows.lemma_walk();
                assert(before.rows.contains_key(key@));
                assert(before.rows[key@] == row@);
            }
            let kept: bool = self.dirty.contains_key(key) || self.needs_load_from_db.contains_key(key)
                || self.settings.processor.seal_tx_hi_exclusive(row.bucket_id) > tx_hi;
            keep.push(kept);
            i = i + 1;
        }
        proof {
            self.rows.lemma_walk();
        }
        let dropped = self.rows.retain(&keep);
        if tx_hi > self.aside_tx_hi {
            self.aside = dropped;
            self.aside_tx_hi = tx_hi;
        } else {
            self.aside.append(dropped);
        }
        proof {
            let after = before.evicted(processor, tx_hi);
            assert(self@.rows =~= after.rows);
            assert(self@.aside =~= after.aside);
        }
    }

    /// Take note of what was written, and drop the rows that are of no more use.
    /// Rows that could not be written stay dirty, so their bits are not lost.
    fn finish_flush<E>(&mut self, entry_count: usize, results: Vec<ChunkResult<E>>, tx_hi: u64) -> (action:
        FlushAction<usize, E>)
        requires
            old(self).wf(),
            old(self)@.cleaned(written_keys(results@)).can_evict(old(self).config().processor),
        ensures
            final(self).wf(),
            final(self).config() == old(self).config(),
            final(self)@ == old(self)@.cleaned(written_keys(results@)).evicted(
                old(self).config().processor,
                tx_hi,
            ),
            action == FlushAction::<usize, E>::Done(
                match first_error(results@) {
                    Some(error) => Err(FlushError::Write(error)),
                    None => Ok(entry_count),
                },
            ),
    {
        let ghost before = self@;
        let ghost all = results@;
        let mut first: Option<E> = None;
        proof {
            assert(self@ =~= before.cleaned(written_keys(all.take(0))));
            assert(all.skip(0) =~= all);
        }
        for result in walk: results
            invariant
                walk.seq() == all,
                self.wf(),
                self.settings == old(self).settings,
                self@ == before.cleaned(written_keys(all.take(walk.index() as int))),
                first_error(all) == match first {
                    Some(error) => Some(error),
                    None => first_error(all.skip(walk.index() as int)),
                },
        {
            let ghost i = walk.index() as int;
            let ghost this = result;
            let error = self.mark_written(result);
            proof {
                let met = all.take(i);
                let more = all.take(i + 1);
                assert(all.skip(i).drop_first() =~= all.skip(i + 1));
                assert forall|key: Seq<u8>| written_keys(more).contains(key) == (written_keys(met).contains(key)
                    || this.wrote(key)) by {
                    if written_keys(met).contains(key) {
                        let j = choose|j: int| 0 <= j < met.len() && #[trigger] met[j].wrote(key);
                        assert(more[j].wrote(key));
                    }
                    if this.wrote(key) {
                        assert(more[i].wrote(key));
                    }
                    if written_keys(more).contains(key) {
                        let j = choose|j: int| 0 <= j < more.len() && #[trigger] more[j].wrote(key);
                        if j < i {
                            assert(met[j].wrote(key));
                        }
                    }
                }
                assert(self@ =~= before.cleaned(written_keys(more)));
            }
            if first.is_none() {
                first = error;
            }
        }
        assert(all.take(all.len() as int) =~= all);
        self.evict(tx_hi);
        match first {
            Some(error) => FlushAction::Done(Err(FlushError::Write(error))),
            None => FlushAction::Done(Ok(entry_count)),
        }
    }

    /// Decide the next step of a flush, which writes every dirty row and then drops the
    /// rows that `watermark` seals. A row that an earlier process may have written
    /// is loaded before it is written. Rows whose write failed stay, and stay dirty.
    pub fn flush<E>(&mut self, event: FlushEvent<E>, watermark: &CommitterWatermark) -> (action: FlushAction<usize, E>)
        requires
            old(self).wf(),
            match event {
                FlushEvent::Start => old(self)@.can_start(
                    old(self).config().processor,
                    old(self).config().flush_write_chunk_size,
                ),
                FlushEvent::LoadsDone => old(self)@.can_write(
                    old(self).config().processor,
                    old(self).config().flush_write_chunk_size,
                ),
                FlushEvent::Loaded { .. } => true,
                FlushEvent::Written { results, .. } => old(self)@.cleaned(
                    written_keys(results@),
                ).can_evict(old(self).config().processor),
            },
        ensures
            final(self).wf(),
            final(self).config() == old(self).config(),
            match event {
                FlushEvent::Start => {
                    &&& final(self)@ == old(self)@.evicted_if_clean(
                        old(self).config().processor,
                        watermark.tx_hi,
                    )
                    &&& if old(self)@.to_load() == Set::<Seq<u8>>::empty() {
                        writes(action, old(self)@, old(self).config())
                    } else {
                        flush::loads(action, old(self)@.to_load())
                    }
                },
                FlushEvent::Loaded { keys, fetched } => match fetched {
                    Err(error) => {
                        &&& action == FlushAction::<usize, E>::Done(Err(FlushError::Load(error)))
                        &&& final(self)@ == old(self)@
                    },
                    Ok(fetched) => match rows::fetched_bits(
                        fetched@,
                        rows::column_bytes(old(self).config().column),
                    ) {
                        None => {
                            &&& action matches FlushAction::Done(Err(FlushError::CorruptBitmap(_)))
                            &&& final(self)@ == old(self)@
                        },
                        Some(found) => {
                            &&& action == FlushAction::<usize, E>::Wait
                            &&& final(self)@ == old(self)@.loaded(chunks::contents(keys@), found)
                        },
                    },
                },
                FlushEvent::LoadsDone => {
                    &&& final(self)@ == old(self)@.evicted_if_clean(
                        old(self).config().processor,
                        watermark.tx_hi,
                    )
                    &&& writes(action, old(self)@, old(self).config())
                },
                FlushEvent::Written { entry_count, results } => {
                    &&& final(self)@ == old(self)@.cleaned(written_keys(results@)).evicted(
                        old(self).config().processor,
                        watermark.tx_hi,
                    )
                    &&& action == FlushAction::<usize, E>::Done(
                        match first_error(results@) {
                            Some(error) => Err(FlushError::Write(error)),
                            None => Ok(entry_count),
                        },
                    )
                },
            },
    {
        match event {
            FlushEvent::Start => self.start_flush(watermark.tx_hi),
            FlushEvent::Loaded { keys, fetched } => self.load_pre_restart_state(keys, fetched),
            FlushEvent::LoadsDone => self.next_write(watermark.tx_hi),
            FlushEvent::Written { entry_count, results } => self.finish_flush(
                entry_count,
                results,
                watermark.tx_hi,
            ),
        }
    }
}

/// Merging is idempotent: a batch that is merged again changes nothing.
pub proof fn law_merge_is_idempotent<P: BitmapIndexProcessor>(
    state: AccumulatedView,
    processor: P,
    startup_tx_hi: u64,
    batch: Map<Seq<u8>, RowView>,
)
    ensures
        state.merged(processor, startup_tx_hi, batch).merged(processor, startup_tx_hi, batch)
            == state.merged(processor, startup_tx_hi, batch),
{
    let once = state.merged(processor, startup_tx_hi, batch);
    let twice = once.merged(processor, startup_tx_hi, batch);
    assert forall|key: Seq<u8>| #[trigger] twice.rows.contains_key(key) implies twice.rows[key]
        == once.rows[key] by {
        assert(once.rows.contains_key(key));
        if batch.contains_key(key) {
            assert(once.rows[key].bits.union(batch[key].bits) =~= once.rows[key].bits);
        }
    }
    assert(twice.rows =~= once.rows);
    assert(twice.dirty =~= once.dirty);
    assert(twice.needs_load =~= once.needs_load);
    assert(twice.aside =~= once.aside);
}

/// A commit that is tried again after a flush that failed in part does not write again
/// what it already wrote: rows that were written do not become dirty when the same batch
/// is merged again, whether the flush dropped them or not. And nothing is lost: each row
/// that the batch contributes to has the bits again that it had before.
pub proof fn law_retry_skips_written_rows<P: BitmapIndexProcessor>(
    state: AccumulatedView,
    processor: P,
    startup_tx_hi: u64,
    batch: Map<Seq<u8>, RowView>,
    written: Set<Seq<u8>>,
    tx_hi: u64,
    key: Seq<u8>,
)
    requires
        state.wf(),
        batch.contains_key(key),
    ensures
        ({
            let merged = state.merged(processor, startup_tx_hi, batch);
            let retried = merged.cleaned(written).evicted(processor, tx_hi).merged(
                processor,
                startup_tx_hi,
                batch,
            );
            &&& written.contains(key) ==> !retried.dirty.contains(key)
            &&& retried.rows.contains_key(key)
            &&& merged.rows[key].bits.subset_of(retried.rows[key].bits)
            &&& state.bits(key).subset_of(retried.rows[key].bits)
        }),
{
    let merged = state.merged(processor, startup_tx_hi, batch);
    lemma_retry(merged, processor, startup_tx_hi, batch, written, tx_hi, key);
}

/// What [`law_retry_skips_written_rows`] says holds just as well where rows were loaded
/// before they were written.
pub proof fn law_retry_skips_loaded_rows<P: BitmapIndexProcessor>(
    state: AccumulatedView,
    processor: P,
    startup_tx_hi: u64,
    batch: Map<Seq<u8>, RowView>,
    loaded_keys: Seq<Seq<u8>>,
    found: Map<Seq<u8>, Set<u32>>,
    written: Set<Seq<u8>>,
    tx_hi: u64,
    key: Seq<u8>,
)
    requires
        state.wf(),
        batch.contains_key(key),
    ensures
        ({
            let loaded = state.merged(processor, startup_tx_hi, batch).loaded(loaded_keys, found);
            let retried = loaded.cleaned(written).evicted(processor, tx_hi).merged(
                processor,
                startup_tx_hi,
                batch,
            );
            &&& written.contains(key) ==> !retried.dirty.contains(key)
            &&& retried.rows.contains_key(key)
            &&& loaded.rows[key].bits.subset_of(retried.rows[key].bits)
        }),
{
    let loaded = state.merged(processor, startup_tx_hi, batch).loaded(loaded_keys, found);
    lemma_retry(loaded, processor, startup_tx_hi, batch, written, tx_hi, key);
}

/// A state that holds a row with the bits of a batch takes nothing new from the batch
/// after a flush.
proof fn lemma_retry<P: BitmapIndexProcessor>(
    state: AccumulatedView,
    processor: P,
    startup_tx_hi: u64,
    batch: Map<Seq<u8>, RowView>,
    written: Set<Seq<u8>>,
    tx_hi: u64,
    key: Seq<u8>,
)
    requires
        state.rows.contains_key(key),
        batch.contains_key(key),
        batch[key].bits.subset_of(state.rows[key].bits),
    ensures
        ({
            let flushed = state.cleaned(written).evicted(processor, tx_hi);
            let retried = flushed.merged(processor, startup_tx_hi, batch);
            &&& written.contains(key) ==> !retried.dirty.contains(key)
            &&& retried.rows.contains_key(key)
            &&& state.rows[key].bits.subset_of(retried.rows[key].bits)
        }),
{
    let flushed = state.cleaned(written).evicted(processor, tx_hi);
    assert(flushed.known().contains_key(key));
    assert(flushed.known()[key] == state.rows[key]);
    assert(flushed.bits(key) == state.rows[key].bits);
}

/// A commit that is tried again after its flush succeeded, because the watermark could
/// not be written, converges: merging the same batch again makes nothing dirty, so
/// nothing is written, and a flush at the same watermark leaves everything as the first
/// one did.
pub proof fn law_retried_commit_converges<P: BitmapIndexProcessor>(
    state: AccumulatedView,
    processor: P,
    startup_tx_hi: u64,
    batch: Map<Seq<u8>, RowView>,
    loaded_keys: Seq<Seq<u8>>,
    found: Map<Seq<u8>, Set<u32>>,
    written: Set<Seq<u8>>,
    tx_hi: u64,
)
    requires
        state.wf(),
        state.merged(processor, startup_tx_hi, batch).loaded(loaded_keys, found).cleaned(written).dirty == Set::<
            Seq<u8>,
        >::empty(),
    ensures
        ({
            let loaded = state.merged(processor, startup_tx_hi, batch).loaded(loaded_keys, found);
            let flushed = loaded.cleaned(written).evicted(processor, tx_hi);
            let retried = flushed.merged(processor, startup_tx_hi, batch);
            &&& retried.dirty == Set::<Seq<u8>>::empty()
            &&& forall|key: Seq<u8>| #[trigger]
                batch.contains_key(key) ==> retried.rows.contains_key(key) && retried.rows[key]
                    == loaded.rows[key]
            &&& retried.evicted(processor, tx_hi) == flushed
        }),
{
    let merged = state.merged(processor, startup_tx_hi, batch);
    let loaded = merged.loaded(loaded_keys, found);
    let cleaned = loaded.cleaned(written);
    let flushed = cleaned.evicted(processor, tx_hi);
    let retried = flushed.merged(processor, startup_tx_hi, batch);
    let again = retried.evicted(processor, tx_hi);
    assert forall|key: Seq<u8>| #[trigger] batch.contains_key(key) implies {
        &&& retried.rows.contains_key(key)
        &&& retried.rows[key] == loaded.rows[key]
        &&& batch[key].bits.subset_of(flushed.bits(key))
    } by {
        assert(merged.rows.contains_key(key));
        assert(loaded.rows.contains_key(key));
        assert(flushed.known().contains_key(key));
        assert(flushed.known()[key] == loaded.rows[key]);
        assert(batch[key].bits.subset_of(loaded.rows[key].bits));
        assert(loaded.rows[key].bits.union(batch[key].bits) =~= loaded.rows[key].bits);
    }
    assert(retried.dirty =~= Set::empty());
    assert(retried.needs_load =~= flushed.needs_load);
    assert(again.rows =~= flushed.rows);
    assert(again.aside =~= flushed.aside);
    assert(again =~= flushed);
}

/// The bits of a row only grow, and its latest checkpoint only moves forward, whatever
/// happens. So what is written later is a superset of what was written earlier. A row
/// that was dropped is forgotten only when a later watermark arrives.
pub proof fn law_rows_only_grow<P: BitmapIndexProcessor>(
    state: AccumulatedView,
    processor: P,
    startup_tx_hi: u64,
    batch: Map<Seq<u8>, RowView>,
    loaded_keys: Seq<Seq<u8>>,
    found: Map<Seq<u8>, Set<u32>>,
    written: Set<Seq<u8>>,
    tx_hi: u64,
    key: Seq<u8>,
)
    requires
        state.known().contains_key(key),
    ensures
        ({
            let row = state.known()[key];
            let merged = state.merged(processor, startup_tx_hi, batch).known();
            let loaded = state.loaded(loaded_keys, found).known();
            let cleaned = state.cleaned(written).known();
            let evicted = state.evicted(processor, tx_hi).known();
            &&& merged.contains_key(key)
            &&& row.bits.subset_of(merged[key].bits)
            &&& row.max_cp <= merged[key].max_cp
            &&& loaded.contains_key(key)
            &&& row.bits.subset_of(loaded[key].bits)
            &&& row.max_cp == loaded[key].max_cp
            &&& cleaned.contains_key(key)
            &&& cleaned[key] == row
            &&& state.rows.contains_key(key) || tx_hi <= state.aside_tx_hi ==> evicted.contains_key(key)
                && evicted[key] == row
        }),
{
}

/// The timestamp of a row never decreases, given that a later checkpoint never has
/// an earlier timestamp.
pub proof fn law_timestamps_never_decrease<P: BitmapIndexProcessor>(
    state: AccumulatedView,
    processor: P,
    startup_tx_hi: u64,
    batch: Map<Seq<u8>, RowView>,
    key: Seq<u8>,
)
    requires
        state.known().contains_key(key),
        batch.contains_key(key) && state.known()[key].max_cp < batch[key].max_cp ==> state.known()[key].max_ts_ms
            <= batch[key].max_ts_ms,
    ensures
        state.known()[key].max_ts_ms <= state.merged(processor, startup_tx_hi, batch).known()[key].max_ts_ms,
{
}

/// No bit is dropped before it is written: a row that is dirty, or has to be loaded
/// yet, survives the eviction.
pub proof fn law_eviction_keeps_unwritten_rows<P: BitmapIndexProcessor>(
    state: AccumulatedView,
    processor: P,
    tx_hi: u64,
    key: Seq<u8>,
)
    requires
        state.rows.contains_key(key),
        state.dirty.contains(key) || state.needs_load.contains(key)
            || processor.sealed_at(state.rows[key].bucket_id) > tx_hi,
    ensures
        state.evicted(processor, tx_hi).rows.contains_key(key),
{
}

/// A write that fails, in whole or for some rows, leaves those rows dirty, so the
/// next flush writes them.
pub proof fn law_failed_writes_stay_dirty<P: BitmapIndexProcessor, E>(
    state: AccumulatedView,
    processor: P,
    results: Seq<ChunkResult<E>>,
    tx_hi: u64,
    key: Seq<u8>,
)
    requires
        state.rows.contains_key(key),
        state.dirty.contains(key),
        forall|i: int| 0 <= i < results.len() ==> !(#[trigger] results[i].wrote(key)),
    ensures
        ({
            let after = state.cleaned(written_keys(results)).evicted(processor, tx_hi);
            &&& after.dirty.contains(key)
            &&& after.rows.contains_key(key)
            &&& after.rows[key] == state.rows[key]
        }),
{
}

/// When every entry was written, nothing is left to write.
pub proof fn law_full_write_leaves_nothing_dirty<E>(
    state: AccumulatedView,
    column: Seq<char>,
    entries: Seq<Entry>,
    results: Seq<ChunkResult<E>>,
)
    requires
        state.written_as(column, entries),
        forall|i: int| 0 <= i < results.len() ==> (#[trigger] results[i]).outcome is Written,
        forall|j: int|
            0 <= j < entries.len() ==> exists|i: int|
                0 <= i < results.len() && chunks::contents((#[trigger] results[i]).keys@).contains(
                    (#[trigger] entries[j]).row_key@,
                ),
    ensures
        state.cleaned(written_keys(results)).dirty == Set::<Seq<u8>>::empty(),
{
    let keys = entries.map_values(|entry: Entry| entry.row_key@);
    assert forall|key: Seq<u8>| state.dirty.contains(key) implies written_keys(results).contains(key) by {
        assert(keys.to_set().contains(key));
        let j = choose|j: int| 0 <= j < keys.len() && keys[j] == key;
        assert(entries[j].row_key@ == key);
        let i = choose|i: int|
            0 <= i < results.len() && chunks::contents((#[trigger] results[i]).keys@).contains(
                entries[j].row_key@,
            );
        assert(results[i].wrote(key));
    }
    assert(state.cleaned(written_keys(results)).dirty =~= Set::empty());
}

/// A row is loaded once: as long as it is held or set aside, no later step asks for it
/// again.
pub proof fn law_rows_are_loaded_once<P: BitmapIndexProcessor>(
    state: AccumulatedView,
    processor: P,
    startup_tx_hi: u64,
    batch: Map<Seq<u8>, RowView>,
    loaded_keys: Seq<Seq<u8>>,
    found: Map<Seq<u8>, Set<u32>>,
    written: Set<Seq<u8>>,
    tx_hi: u64,
    key: Seq<u8>,
)
    requires
        state.known().contains_key(key),
    ensures
        loaded_keys.contains(key) ==> !state.loaded(loaded_keys, found).needs_load.contains(key),
        !state.needs_load.contains(key) ==> {
            &&& !state.merged(processor, startup_tx_hi, batch).needs_load.contains(key)
            &&& !state.loaded(loaded_keys, found).needs_load.contains(key)
            &&& !state.cleaned(written).needs_load.contains(key)
            &&& !state.evicted(processor, tx_hi).needs_load.contains(key)
        },
{
}

/// What an earlier process wrote is not lost: once it was found, the entry that is
/// written for the row holds it, next to the bits of this process.
pub proof fn law_found_bits_are_written(
    state: AccumulatedView,
    loaded_keys: Seq<Seq<u8>>,
    found: Map<Seq<u8>, Set<u32>>,
    column: Seq<char>,
    entries: Seq<Entry>,
    i: int,
)
    requires
        state.loaded(loaded_keys, found).written_as(column, entries),
        0 <= i < entries.len(),
        state.rows.contains_key(entries[i].row_key@),
        found.contains_key(entries[i].row_key@),
    ensures
        bitmap::stored_bits(entries[i].value@) == Some(
            state.rows[entries[i].row_key@].bits.union(found[entries[i].row_key@]),
        ),
{
}

/// The bit is one of the row at `key`, held or set aside.
pub open spec fn is_known(state: AccumulatedView, key: Seq<u8>, bit: u32) -> bool {
    ||| state.rows.contains_key(key) && state.rows[key].bits.contains(bit)
    ||| !state.rows.contains_key(key) && state.aside.contains_key(key) && state.aside[key].bits.contains(bit)
}

/// A merge misses nothing and makes nothing up. A row of the batch has exactly the bits
/// of the batch and those that were known of it; it is dirty exactly if it was, or if the
/// batch brought a bit that was not known. Rows that are not in the batch stay as they
/// were.
pub proof fn law_merge_takes_every_bit<P: BitmapIndexProcessor>(
    state: AccumulatedView,
    processor: P,
    startup_tx_hi: u64,
    batch: Map<Seq<u8>, RowView>,
    key: Seq<u8>,
)
    ensures
        ({
            let merged = state.merged(processor, startup_tx_hi, batch);
            if batch.contains_key(key) {
                &&& merged.rows.contains_key(key)
                &&& forall|bit: u32| #[trigger]
                    merged.rows[key].bits.contains(bit) <==> batch[key].bits.contains(bit) || is_known(
                        state,
                        key,
                        bit,
                    )
                &&& merged.dirty.contains(key) <==> state.dirty.contains(key) || exists|bit: u32|
                    batch[key].bits.contains(bit) && !(#[trigger] is_known(state, key, bit))
                &&& !merged.aside.contains_key(key)
            } else {
                &&& merged.rows.contains_key(key) == state.rows.contains_key(key)
                &&& state.rows.contains_key(key) ==> merged.rows[key] == state.rows[key]
                &&& merged.dirty.contains(key) == state.dirty.contains(key)
                &&& merged.needs_load.contains(key) == state.needs_load.contains(key)
                &&& merged.aside.contains_key(key) == state.aside.contains_key(key)
                &&& state.aside.contains_key(key) ==> merged.aside[key] == state.aside[key]
            }
        }),
        state.merged(processor, startup_tx_hi, batch).aside_tx_hi == state.aside_tx_hi,
{
    let merged = state.merged(processor, startup_tx_hi, batch);
    if batch.contains_key(key) {
        assert(forall|bit: u32| is_known(state, key, bit) == #[trigger] state.bits(key).contains(bit));
        if merged.dirty.contains(key) && !state.dirty.contains(key) {
            let bit = choose|bit: u32| batch[key].bits.contains(bit) && !state.bits(key).contains(bit);
            assert(batch[key].bits.contains(bit) && !is_known(state, key, bit));
        }
        if exists|bit: u32| batch[key].bits.contains(bit) && !(#[trigger] is_known(state, key, bit)) {
            let bit = choose|bit: u32| batch[key].bits.contains(bit) && !(#[trigger] is_known(state, key, bit));
            assert(!state.bits(key).contains(bit));
        }
    }
}

/// A row that is merged is dated by the later of its checkpoint and the batch's, and
/// stays in its bucket. One that is new is as the batch has it.
pub proof fn law_merge_dates_rows<P: BitmapIndexProcessor>(
    state: AccumulatedView,
    processor: P,
    startup_tx_hi: u64,
    batch: Map<Seq<u8>, RowView>,
    key: Seq<u8>,
    row: RowView,
)
    requires
        batch.contains_key(key),
    ensures
        ({
            let after = state.merged(processor, startup_tx_hi, batch).rows[key];
            let held = state.rows.contains_key(key) && row == state.rows[key];
            let aside = !state.rows.contains_key(key) && state.aside.contains_key(key) && row
                == state.aside[key];
            &&& held || aside ==> {
                &&& after.bucket_id == row.bucket_id
                &&& after.max_cp >= row.max_cp && after.max_cp >= batch[key].max_cp
                &&& batch[key].max_cp > row.max_cp ==> after.max_cp == batch[key].max_cp && after.max_ts_ms
                    == batch[key].max_ts_ms
                &&& batch[key].max_cp <= row.max_cp ==> after.max_cp == row.max_cp && after.max_ts_ms
                    == row.max_ts_ms
            }
            &&& !state.rows.contains_key(key) && !state.aside.contains_key(key) ==> {
                &&& after.bucket_id == batch[key].bucket_id
                &&& after.max_cp == batch[key].max_cp
                &&& after.max_ts_ms == batch[key].max_ts_ms
            }
        }),
{
}

/// A row that is new has to be loaded exactly if its bucket begins below the startup
/// watermark: where the bucket before it is sealed, or at 0. No other row becomes one
/// that has to be loaded.
pub proof fn law_rows_of_straddling_buckets_are_loaded<P: BitmapIndexProcessor>(
    state: AccumulatedView,
    processor: P,
    startup_tx_hi: u64,
    batch: Map<Seq<u8>, RowView>,
    key: Seq<u8>,
)
    requires
        batch.contains_key(key),
    ensures
        ({
            let needed = state.merged(processor, startup_tx_hi, batch).needs_load.contains(key);
            let bucket_id = batch[key].bucket_id;
            if state.rows.contains_key(key) || state.aside.contains_key(key) {
                needed == state.needs_load.contains(key)
            } else if bucket_id == 0 {
                needed == (state.needs_load.contains(key) || startup_tx_hi > 0)
            } else {
                needed == (state.needs_load.contains(key) || processor.sealed_at((bucket_id - 1) as u64)
                    < startup_tx_hi)
            }
        }),
{
}

/// A flush does not write a row before it was looked up: as long as a dirty row has to be
/// loaded, the flush begins with a load, and asks for that row.
pub proof fn law_rows_are_looked_up_before_they_are_written<P, E>(
    state: AccumulatedView,
    action: FlushAction<usize, E>,
    settings: FlushSettings<P>,
    key: Seq<u8>,
)
    requires
        state.dirty.contains(key),
        state.needs_load.contains(key),
        if state.to_load() == Set::<Seq<u8>>::empty() {
            writes(action, state, settings)
        } else {
            flush::loads(action, state.to_load())
        },
    ensures
        action matches FlushAction::Load { key_chunks, .. } && flush::is_asked_for(key_chunks@, key),
{
    assert(state.to_load().contains(key));
    flush::law_loads_ask_for_the_rows(action, state.to_load());
}

/// A flush looks up nothing but dirty rows that have to be loaded.
pub proof fn law_only_dirty_rows_are_looked_up(state: AccumulatedView, key: Seq<u8>)
    ensures
        state.to_load().contains(key) <==> state.dirty.contains(key) && state.needs_load.contains(key),
{
}

/// A load adds the bits that were found to a row that is held, and no others. The rows
/// that were looked up need not be loaded again, whether anything was found or not.
/// Nothing else changes.
pub proof fn law_load_adds_what_was_found(
    state: AccumulatedView,
    keys: Seq<Seq<u8>>,
    found: Map<Seq<u8>, Set<u32>>,
    key: Seq<u8>,
)
    ensures
        ({
            let loaded = state.loaded(keys, found);
            &&& loaded.rows.contains_key(key) == state.rows.contains_key(key)
            &&& state.rows.contains_key(key) ==> {
                &&& forall|bit: u32| #[trigger]
                    loaded.rows[key].bits.contains(bit) <==> state.rows[key].bits.contains(bit) || (
                    found.contains_key(key) && found[key].contains(bit))
                &&& loaded.rows[key].bucket_id == state.rows[key].bucket_id
                &&& loaded.rows[key].max_cp == state.rows[key].max_cp
                &&& loaded.rows[key].max_ts_ms == state.rows[key].max_ts_ms
            }
            &&& loaded.needs_load.contains(key) <==> state.needs_load.contains(key) && !keys.contains(key)
            &&& loaded.dirty == state.dirty
            &&& loaded.aside == state.aside
            &&& loaded.aside_tx_hi == state.aside_tx_hi
        }),
{
}

/// The entry stands in one of the chunks.
pub open spec fn is_sent(entry_chunks: Seq<Vec<Entry>>, key: Seq<u8>, column: Seq<char>, row: RowView) -> bool {
    exists|c: int, j: int|
        0 <= c < entry_chunks.len() && 0 <= j < entry_chunks[c]@.len() && rows::writes_row(
            #[trigger] entry_chunks[c]@[j],
            key,
            column,
            row.bits,
            row.max_ts_ms,
        )
}

/// A flush writes every dirty row with all its bits, under its own timestamp, and nothing
/// else, no row twice, and counts the entries. Where no row is dirty it is over.
pub proof fn law_flush_writes_the_dirty_rows<P, E>(
    action: FlushAction<usize, E>,
    state: AccumulatedView,
    settings: FlushSettings<P>,
)
    requires
        writes(action, state, settings),
        settings.flush_write_chunk_size > 0,
    ensures
        (forall|key: Seq<u8>| !(#[trigger] state.dirty.contains(key))) ==> action == FlushAction::<usize, E>::Done(
            Ok(0),
        ),
        (exists|key: Seq<u8>| #[trigger] state.dirty.contains(key)) ==> {
            &&& action matches FlushAction::Write { entry_count, entry_chunks, concurrency }
            &&& concurrency == settings.flush_write_concurrency
            &&& forall|key: Seq<u8>| #[trigger]
                state.dirty.contains(key) ==> is_sent(entry_chunks@, key, settings.column@, state.rows[key])
            &&& forall|c: int, j: int|
                0 <= c < entry_chunks@.len() && 0 <= j < entry_chunks@[c]@.len() ==> state.dirty.contains(
                    (#[trigger] entry_chunks@[c]@[j]).row_key@,
                ) && rows::writes_row(
                    entry_chunks@[c]@[j],
                    entry_chunks@[c]@[j].row_key@,
                    settings.column@,
                    state.rows[entry_chunks@[c]@[j].row_key@].bits,
                    state.rows[entry_chunks@[c]@[j].row_key@].max_ts_ms,
                )
            &&& forall|c: int|
                0 <= c < entry_chunks@.len() ==> 0 < (#[trigger] entry_chunks@[c])@.len()
                    <= settings.flush_write_chunk_size
            &&& forall|c: int, j: int, d: int, k: int|
                #![trigger entry_chunks@[c]@[j], entry_chunks@[d]@[k]]
                0 <= c < entry_chunks@.len() && 0 <= j < entry_chunks@[c]@.len() && 0 <= d < entry_chunks@.len()
                    && 0 <= k < entry_chunks@[d]@.len() && entry_chunks@[c]@[j].row_key@
                    == entry_chunks@[d]@[k].row_key@ ==> c == d && j == k
            &&& entry_count == chunks::contents(entry_chunks@).flatten().len()
        },
{
    if forall|key: Seq<u8>| !(#[trigger] state.dirty.contains(key)) {
        assert(state.dirty =~= Set::empty());
    }
    if exists|key: Seq<u8>| #[trigger] state.dirty.contains(key) {
        let some = choose|key: Seq<u8>| #[trigger] state.dirty.contains(key);
        assert(state.dirty != Set::<Seq<u8>>::empty()) by {
            assert(!Set::<Seq<u8>>::empty().contains(some));
        }
        if let FlushAction::Write { entry_count, entry_chunks, concurrency } = action {
            let cutting = chunks::contents(entry_chunks@);
            let entries = cutting.flatten();
            let size = settings.flush_write_chunk_size as nat;
            let names = entries.map_values(|entry: Entry| entry.row_key@);
            assert forall|key: Seq<u8>| #[trigger] state.dirty.contains(key) implies is_sent(
                entry_chunks@,
                key,
                settings.column@,
                state.rows[key],
            ) by {
                assert(names.to_set().contains(key));
                let i = choose|i: int| 0 <= i < names.len() && names[i] == key;
                let (c, j) = chunks::law_every_item_is_in_a_chunk(entries, size, i);
                assert(entry_chunks@[c]@ == cutting[c]);
                assert(entry_chunks@[c]@[j] == entries[i]);
                assert(rows::writes_row(
                    entry_chunks@[c]@[j],
                    key,
                    settings.column@,
                    state.rows[key].bits,
                    state.rows[key].max_ts_ms,
                ));
            }
            assert forall|c: int, j: int|
                0 <= c < entry_chunks@.len() && 0 <= j < entry_chunks@[c]@.len() implies state.dirty.contains(
                (#[trigger] entry_chunks@[c]@[j]).row_key@,
            ) && rows::writes_row(
                entry_chunks@[c]@[j],
                entry_chunks@[c]@[j].row_key@,
                settings.column@,
                state.rows[entry_chunks@[c]@[j].row_key@].bits,
                state.rows[entry_chunks@[c]@[j].row_key@].max_ts_ms,
            ) by {
                chunks::law_chunks_are_runs(entries, size, c);
                assert(entry_chunks@[c]@ == cutting[c]);
                assert(cutting[c][j] == entries[c * size + j]);
                assert(names.to_set().contains(names[c * size + j]));
            }
            assert forall|c: int| 0 <= c < entry_chunks@.len() implies 0 < (#[trigger] entry_chunks@[c])@.len()
                <= settings.flush_write_chunk_size by {
                chunks::law_chunks_are_runs(entries, size, c);
                assert(entry_chunks@[c]@ == cutting[c]);
            }
            assert forall|c: int, j: int, d: int, k: int|
                #![trigger entry_chunks@[c]@[j], entry_chunks@[d]@[k]]
                0 <= c < entry_chunks@.len() && 0 <= j < entry_chunks@[c]@.len() && 0 <= d < entry_chunks@.len() && 0
                    <= k < entry_chunks@[d]@.len() && entry_chunks@[c]@[j].row_key@ == entry_chunks@[d]@[k].row_key@ implies c
                == d && j == k by {
                chunks::law_chunks_are_runs(entries, size, c);
                chunks::law_chunks_are_runs(entries, size, d);
                assert(entry_chunks@[c]@ == cutting[c] && entry_chunks@[d]@ == cutting[d]);
                assert(cutting[c][j] == entries[c * size + j] && cutting[d][k] == entries[d * size + k]);
                assert(names[c * size + j] == names[d * size + k]);
                assert(c == d && j == k) by (nonlinear_arith)
                    requires
                        c * size + j == d * size + k,
                        0 <= j < size,
                        0 <= k < size,
                        size > 0,
                ;
            }
        }
    }
}

/// A row counts as written exactly if it was in a chunk that was written, and the write
/// did not name it as failed.
pub proof fn law_written_rows_are_those_of_the_chunks<E>(results: Seq<ChunkResult<E>>, key: Seq<u8>)
    ensures
        written_keys(results).contains(key) <==> exists|i: int|
            0 <= i < results.len() && (exists|j: int|
                0 <= j < results[i].keys@.len() && (#[trigger] results[i].keys@[j])@ == key) && match (
            #[trigger] results[i]).outcome {
                WriteOutcome::Written => true,
                WriteOutcome::Partial { failed_keys, .. } => forall|j: int|
                    0 <= j < failed_keys@.len() ==> (#[trigger] failed_keys@[j])@ != key,
                WriteOutcome::Failed { .. } => false,
            },
{
    assert forall|i: int| 0 <= i < results.len() implies (#[trigger] results[i]).wrote(key) == ((exists|j: int|
        0 <= j < results[i].keys@.len() && (#[trigger] results[i].keys@[j])@ == key) && match results[i].outcome {
        WriteOutcome::Written => true,
        WriteOutcome::Partial { failed_keys, .. } => forall|j: int|
            0 <= j < failed_keys@.len() ==> (#[trigger] failed_keys@[j])@ != key,
        WriteOutcome::Failed { .. } => false,
    }) by {
        let result = results[i];
        let listed = chunks::contents(result.keys@);
        if listed.contains(key) {
            let j = choose|j: int| 0 <= j < listed.len() && listed[j] == key;
            assert(result.keys@[j]@ == key);
        }
        if exists|j: int| 0 <= j < result.keys@.len() && (#[trigger] result.keys@[j])@ == key {
            let j = choose|j: int| 0 <= j < result.keys@.len() && (#[trigger] result.keys@[j])@ == key;
            assert(listed[j] == key);
        }
        if let WriteOutcome::Partial { failed_keys, .. } = result.outcome {
            let failed = chunks::contents(failed_keys@);
            if failed.contains(key) {
                let j = choose|j: int| 0 <= j < failed.len() && failed[j] == key;
                assert(failed_keys@[j]@ == key);
            } else {
                assert forall|j: int| 0 <= j < failed_keys@.len() implies (#[trigger] failed_keys@[j])@ != key by {
                    assert(failed[j] == failed_keys@[j]@);
                }
            }
        }
    }
    if written_keys(results).contains(key) {
        let i = choose|i: int| 0 <= i < results.len() && #[trigger] results[i].wrote(key);
        assert(results[i].wrote(key));
    }
    if exists|i: int|
        0 <= i < results.len() && (exists|j: int|
            0 <= j < results[i].keys@.len() && (#[trigger] results[i].keys@[j])@ == key) && match (
        #[trigger] results[i]).outcome {
            WriteOutcome::Written => true,
            WriteOutcome::Partial { failed_keys, .. } => forall|j: int|
                0 <= j < failed_keys@.len() ==> (#[trigger] failed_keys@[j])@ != key,
            WriteOutcome::Failed { .. } => false,
        } {
        let i = choose|i: int|
            0 <= i < results.len() && (exists|j: int|
                0 <= j < results[i].keys@.len() && (#[trigger] results[i].keys@[j])@ == key) && match (
            #[trigger] results[i]).outcome {
                WriteOutcome::Written => true,
                WriteOutcome::Partial { failed_keys, .. } => forall|j: int|
                    0 <= j < failed_keys@.len() ==> (#[trigger] failed_keys@[j])@ != key,
                WriteOutcome::Failed { .. } => false,
            };
        assert(results[i].wrote(key));
    }
}

/// The error of a flush is that of the first chunk that has one; a flush in which every
/// chunk was written has none.
pub proof fn law_first_error_is_the_first<E>(results: Seq<ChunkResult<E>>)
    ensures
        match first_error(results) {
            Some(error) => exists|i: int|
                0 <= i < results.len() && match (#[trigger] results[i]).outcome {
                    WriteOutcome::Written => false,
                    WriteOutcome::Partial { error: own, .. } => own == error,
                    WriteOutcome::Failed { error: own } => own == error,
                } && forall|j: int| 0 <= j < i ==> (#[trigger] results[j]).outcome is Written,
            None => forall|i: int| 0 <= i < results.len() ==> (#[trigger] results[i]).outcome is Written,
        },
    decreases results.len(),
{
    if results.len() > 0 && results[0].error() is None {
        let rest = results.drop_first();
        law_first_error_is_the_first(rest);
        match first_error(results) {
            Some(error) => {
                let i = choose|i: int|
                    0 <= i < rest.len() && match (#[trigger] rest[i]).outcome {
                        WriteOutcome::Written => false,
                        WriteOutcome::Partial { error: own, .. } => own == error,
                        WriteOutcome::Failed { error: own } => own == error,
                    } && forall|j: int| 0 <= j < i ==> (#[trigger] rest[j]).outcome is Written;
                assert(results[i + 1] == rest[i]);
                assert forall|j: int| 0 <= j < i + 1 implies (#[trigger] results[j]).outcome is Written by {
                    if j > 0 {
                        assert(results[j] == rest[j - 1]);
                    }
                }
            },
            None => {
                assert forall|i: int| 0 <= i < results.len() implies (#[trigger] results[i]).outcome is Written by {
                    if i > 0 {
                        assert(results[i] == rest[i - 1]);
                    }
                }
            },
        }
    }
}

/// What was written is no longer dirty, and nothing else changes.
pub proof fn law_written_rows_are_clean(state: AccumulatedView, written: Set<Seq<u8>>, key: Seq<u8>)
    ensures
        state.cleaned(written).dirty.contains(key) <==> state.dirty.contains(key) && !written.contains(key),
        state.cleaned(written).rows == state.rows,
        state.cleaned(written).needs_load == state.needs_load,
        state.cleaned(written).aside == state.aside,
        state.cleaned(written).aside_tx_hi == state.aside_tx_hi,
{
}

/// A row is held on exactly if it is dirty, has to be loaded, or is not sealed by the
/// watermark, and then it stays as it is. A row that is dropped is set aside as it was.
/// What was set aside before is kept unless the watermark is a later one.
pub proof fn law_sealed_rows_are_dropped<P: BitmapIndexProcessor>(
    state: AccumulatedView,
    processor: P,
    tx_hi: u64,
    key: Seq<u8>,
)
    ensures
        ({
            let after = state.evicted(processor, tx_hi);
            let kept = state.rows.contains_key(key) && (state.dirty.contains(key) || state.needs_load.contains(key)
                || processor.sealed_at(state.rows[key].bucket_id) > tx_hi);
            &&& after.rows.contains_key(key) <==> kept
            &&& kept ==> after.rows[key] == state.rows[key] && !after.aside.contains_key(key)
            &&& state.rows.contains_key(key) && !kept ==> after.aside.contains_key(key) && after.aside[key]
                == state.rows[key]
            &&& !state.rows.contains_key(key) ==> {
                &&& after.aside.contains_key(key) <==> state.aside.contains_key(key) && tx_hi
                    <= state.aside_tx_hi
                &&& after.aside.contains_key(key) ==> after.aside[key] == state.aside[key]
            }
            &&& after.dirty == state.dirty
            &&& after.needs_load == state.needs_load
            &&& after.aside_tx_hi >= tx_hi && after.aside_tx_hi >= state.aside_tx_hi
            &&& after.aside_tx_hi == tx_hi || after.aside_tx_hi == state.aside_tx_hi
        }),
{
}

/// A flush that has nothing to write drops the rows that the watermark seals; one that
/// has something to write drops nothing before it was written.
pub proof fn law_clean_flushes_drop_sealed_rows<P: BitmapIndexProcessor>(
    state: AccumulatedView,
    processor: P,
    tx_hi: u64,
    key: Seq<u8>,
)
    ensures
        state.dirty.contains(key) ==> state.evicted_if_clean(processor, tx_hi) == state,
        (forall|other: Seq<u8>| !(#[trigger] state.dirty.contains(other))) ==> (state.evicted_if_clean(
            processor,
            tx_hi,
        ).rows.contains_key(key) <==> state.rows.contains_key(key) && (state.needs_load.contains(key)
            || processor.sealed_at(state.rows[key].bucket_id) > tx_hi)),
{
    if forall|other: Seq<u8>| !(#[trigger] state.dirty.contains(other)) {
        assert(state.dirty =~= Set::empty());
    }
    if state.dirty.contains(key) {
        assert(state.dirty != Set::<Seq<u8>>::empty()) by {
            assert(!Set::<Seq<u8>>::empty().contains(key));
        }
    }
}

/// What an earlier process wrote is looked up before it is overwritten: if a batch brings
/// bits for a row that is neither held nor set aside, of a bucket that begins below the
/// startup watermark, the flush of that batch begins with a load, and asks for the row.
pub proof fn law_new_rows_of_straddling_buckets_are_looked_up_first<P: BitmapIndexProcessor, E>(
    state: AccumulatedView,
    processor: P,
    startup_tx_hi: u64,
    batch: Map<Seq<u8>, RowView>,
    key: Seq<u8>,
    bit: u32,
    action: FlushAction<usize, E>,
    settings: FlushSettings<P>,
)
    requires
        batch.contains_key(key),
        batch[key].bits.contains(bit),
        !state.rows.contains_key(key),
        !state.aside.contains_key(key),
        batch[key].bucket_id == 0 ==> startup_tx_hi > 0,
        batch[key].bucket_id > 0 ==> processor.sealed_at((batch[key].bucket_id - 1) as u64) < startup_tx_hi,
        ({
            let merged = state.merged(processor, startup_tx_hi, batch);
            if merged.to_load() == Set::<Seq<u8>>::empty() {
                writes(action, merged, settings)
            } else {
                flush::loads(action, merged.to_load())
            }
        }),
    ensures
        action matches FlushAction::Load { key_chunks, .. } && flush::is_asked_for(key_chunks@, key),
{
    let merged = state.merged(processor, startup_tx_hi, batch);
    law_merge_takes_every_bit(state, processor, startup_tx_hi, batch, key);
    assert(!is_known(state, key, bit));
    law_rows_of_straddling_buckets_are_loaded(state, processor, startup_tx_hi, batch, key);
    law_rows_are_looked_up_before_they_are_written(merged, action, settings, key);
}

/// A flush can start, write and evict if every bucket that it holds rows of can be
/// sealed, and chunks can hold an entry.
pub proof fn law_flushes_can_go_on<P: BitmapIndexProcessor>(
    state: AccumulatedView,
    processor: P,
    chunk_size: usize,
)
    requires
        chunk_size > 0,
        forall|key: Seq<u8>| #[trigger]
            state.rows.contains_key(key) ==> processor.can_seal(state.rows[key].bucket_id),
    ensures
        state.can_start(processor, chunk_size),
        state.can_write(processor, chunk_size),
        state.can_evict(processor),
{
}

/// An empty state holds nothing.
pub proof fn law_empty_holds_nothing(key: Seq<u8>, bit: u32)
    ensures
        !AccumulatedView::empty().rows.contains_key(key),
        !AccumulatedView::empty().aside.contains_key(key),
        !AccumulatedView::empty().dirty.contains(key),
        !AccumulatedView::empty().needs_load.contains(key),
        !is_known(AccumulatedView::empty(), key, bit),
        AccumulatedView::empty().aside_tx_hi == 0,
{
}

} // verus!
