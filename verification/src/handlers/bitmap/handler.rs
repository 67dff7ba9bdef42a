//! The pipeline that keeps a bitmap index, for any processor.
//!
//! What the processor emits gathers in a [`BitmapIndexBatch`]. A commit merges the
//! batch into the pipeline's accumulated state and flushes it. It runs within a
//! transaction that has staged the watermark, and that writes it only when the
//! commit has succeeded.

use vstd::prelude::*;

use crate::bigtable::flush;
use crate::bigtable::flush::FlushAction;
use crate::bigtable::flush::FlushError;
use crate::bigtable::rows;
use crate::bigtable::store::processor;
use crate::bigtable::store::BigTableConnection;
use crate::bigtable::store::BitmapIndexProcessor;
use crate::bigtable::store::CommitterWatermark;
use crate::chunks;
use crate::handlers::bitmap::accumulated;
use crate::handlers::bitmap::accumulated::AccumulatedState;
use crate::handlers::bitmap::accumulated::AccumulatedView;
use crate::handlers::bitmap::accumulated::FlushEvent;
use crate::handlers::bitmap::accumulated::FlushSettings;
use crate::handlers::bitmap::batch;
use crate::handlers::bitmap::batch::BitmapIndexBatch;
use crate::handlers::bitmap::batch::BitmapIndexValue;
use crate::handlers::bitmap::batch::RowView;
use crate::handlers::bitmap::layout;
use crate::handlers::bitmap::layout::Checkpoint;
use crate::handlers::bitmap::layout::Point;

verus! {

/// Most checkpoints in one commit. A dirty row is written once in a commit, however
/// many checkpoints contributed to it, so bigger commits are cheaper.
pub const MAX_BATCH_CHECKPOINTS: usize = 5000;

/// The configuration of one pipeline. What is absent falls back to a default.
#[derive(Clone, Copy)]
pub struct SequentialLayer {
    pub write_concurrency: Option<usize>,
    pub max_rows: Option<usize>,
}

/// The pipeline of a processor. Its accumulated state is made at the first commit:
/// only then is it known where the pipeline started.
pub struct BitmapIndexHandler<P> {
    processor: P,
    accumulated: Option<AccumulatedState<P>>,
    flush_write_concurrency: usize,
    flush_write_chunk_size: usize,
}

/// A configured value, or its default.
pub open spec fn value_or(value: Option<usize>, default: usize) -> usize {
    match value {
        Some(value) => value,
        None => default,
    }
}

/// The value is the point as a row of its own, with the metadata of the checkpoint.
pub open spec fn is_row_of<F: Fn(&Vec<u8>, u64) -> Vec<u8>>(
    value: BitmapIndexValue,
    point: Point,
    checkpoint: Checkpoint,
    encode_row_key: F,
) -> bool {
    &&& layout::is_row_key(value.row_key, point, encode_row_key)
    &&& value@ == RowView {
        bucket_id: point.bucket_id,
        bits: set![point.bit_position],
        max_cp: checkpoint.sequence_number,
        max_ts_ms: checkpoint.timestamp_ms,
    }
}

impl<P> BitmapIndexHandler<P> {
    /// The accumulated state, if any, is in order and belongs to the processor.
    pub closed spec fn wf(&self) -> bool {
        self.accumulated matches Some(state) ==> {
            &&& state.wf()
            &&& state.config().processor == self.processor
            &&& state.config().flush_write_chunk_size == self.flush_write_chunk_size
            &&& state.config().flush_write_concurrency == self.flush_write_concurrency
        }
    }

    /// The processor of the pipeline.
    pub closed spec fn feeds_from(&self) -> P {
        self.processor
    }

    /// Most write requests in flight.
    pub closed spec fn write_concurrency(&self) -> usize {
        self.flush_write_concurrency
    }

    /// Most entries in one write request.
    pub closed spec fn write_chunk_size(&self) -> usize {
        self.flush_write_chunk_size
    }

    /// How the accumulated rows are kept and written; absent before the first commit.
    pub closed spec fn config(&self) -> Option<FlushSettings<P>> {
        match self.accumulated {
            Some(state) => Some(state.config()),
            None => None,
        }
    }

    /// The accumulated rows.
    pub closed spec fn state(&self) -> AccumulatedView {
        match self.accumulated {
            Some(state) => state@,
            None => AccumulatedView::empty(),
        }
    }
}

/// The `tx_hi` that the pipeline had at startup: as it was at the first commit.
pub open spec fn startup_of<P: BitmapIndexProcessor>(
    handler: BitmapIndexHandler<P>,
    startups: Map<Seq<char>, u64>,
) -> u64 {
    let name = handler.feeds_from().pipeline();
    match handler.config() {
        Some(settings) => settings.startup_tx_hi,
        None => if startups.contains_key(name) {
            startups[name]
        } else {
            0
        },
    }
}

/// The settings of a pipeline that has committed: those of its first commit, when it
/// took over the `tx_hi` that it had at startup.
pub open spec fn is_started<P: BitmapIndexProcessor>(
    before: BitmapIndexHandler<P>,
    startups: Map<Seq<char>, u64>,
    after: Option<FlushSettings<P>>,
) -> bool {
    match before.config() {
        Some(settings) => after == Some(settings),
        None => {
            &&& after matches Some(settings)
            &&& settings.table@ == before.feeds_from().table_name()
            &&& settings.column@ == before.feeds_from().column_name()
            &&& settings.processor == before.feeds_from()
            &&& settings.startup_tx_hi == startup_of(before, startups)
            &&& settings.flush_write_chunk_size == before.write_chunk_size()
            &&& settings.flush_write_concurrency == before.write_concurrency()
        },
    }
}

impl<P: BitmapIndexProcessor + Copy> BitmapIndexHandler<P> {
    /// A pipeline that has not committed yet. What `config` leaves out is
    /// `global_write_concurrency` and `default_max_rows`.
    pub fn new(
        processor: P,
        config: &SequentialLayer,
        global_write_concurrency: usize,
        default_max_rows: usize,
    ) -> (handler: Self)
        ensures
            handler.wf(),
            handler.feeds_from() == processor,
            handler.write_concurrency() == value_or(config.write_concurrency, global_write_concurrency),
            handler.write_chunk_size() == value_or(config.max_rows, default_max_rows),
            handler.config() is None,
            handler.state() == AccumulatedView::empty(),
    {
        let flush_write_concurrency: usize = match config.write_concurrency {
            Some(concurrency) => concurrency,
            None => global_write_concurrency,
        };
        let flush_write_chunk_size: usize = match config.max_rows {
            Some(max_rows) => max_rows,
            None => default_max_rows,
        };
        BitmapIndexHandler {
            processor,
            accumulated: None,
            flush_write_concurrency,
            flush_write_chunk_size,
        }
    }

    /// The bits of a checkpoint, each as a row of its own.
    pub fn process<F: Fn(&Vec<u8>, u64) -> Vec<u8>>(&self, checkpoint: &Checkpoint, encode_row_key: F) -> (values:
        Vec<BitmapIndexValue>)
        requires
            self.feeds_from().can_process(*checkpoint),
            forall|key: Vec<u8>, bucket_id: u64| call_requires(encode_row_key, (&key, bucket_id)),
        ensures
            values@.len() == self.feeds_from().points(*checkpoint).len(),
            forall|i: int|
                0 <= i < values@.len() ==> is_row_of(
                    #[trigger] values@[i],
                    self.feeds_from().points(*checkpoint)[i],
                    *checkpoint,
                    encode_row_key,
                ),
    {
        let bits = self.processor.process(checkpoint, &encode_row_key);
        let ghost all = bits@;
        let ghost points = self.processor.points(*checkpoint);
        let mut values: Vec<BitmapIndexValue> = Vec::new();
        for bit in walk: bits
            invariant
                walk.seq() == all,
                layout::are_bits_of(all, points, *checkpoint, &encode_row_key),
                values@.len() == walk.index(),
                forall|i: int|
                    0 <= i < values@.len() ==> is_row_of(
                        #[trigger] values@[i],
                        points[i],
                        *checkpoint,
                        encode_row_key,
                    ),
        {
            assert(bit == all[walk.index() as int]);
            let row = bit.into_row();
            assert(is_row_of(row, points[walk.index() as int], *checkpoint, encode_row_key));
            values.push(row);
        }
        values
    }

    /// Add what a checkpoint emitted to a batch.
    pub fn batch(&self, batch: &mut BitmapIndexBatch, values: Vec<BitmapIndexValue>)
        requires
            old(batch).wf(),
        ensures
            final(batch).wf(),
            final(batch)@ == batch::extended(old(batch)@, values@),
    {
        batch.extend(values);
    }

    /// Begin a commit: merge the batch into the accumulated state and begin to flush
    /// it, with the watermark that is staged on the connection. An empty batch is
    /// committed at once. The flush goes on with [`Self::flush`].
    pub fn commit<C, E>(&mut self, batch: &BitmapIndexBatch, conn: &BigTableConnection<'_, C>) -> (action:
        FlushAction<usize, E>)
        requires
            old(self).wf(),
            batch.wf(),
            batch@ != Map::<Seq<u8>, RowView>::empty() ==> {
                &&& conn.stage@.pending is Some
                &&& forall|key: Seq<u8>| #[trigger]
                    batch@.contains_key(key) && !old(self).state().known().contains_key(key)
                        ==> processor::can_find_low_end(old(self).feeds_from(), batch@[key].bucket_id)
                &&& old(self).state().merged(
                    old(self).feeds_from(),
                    startup_of(*old(self), conn.startups()),
                    batch@,
                ).can_start(old(self).feeds_from(), old(self).write_chunk_size())
            },
        ensures
            final(self).wf(),
            final(self).feeds_from() == old(self).feeds_from(),
            final(self).write_concurrency() == old(self).write_concurrency(),
            final(self).write_chunk_size() == old(self).write_chunk_size(),
            if batch@ == Map::<Seq<u8>, RowView>::empty() {
                &&& action == FlushAction::<usize, E>::Done(Ok(0))
                &&& final(self).config() == old(self).config()
                &&& final(self).state() == old(self).state()
            } else {
                let merged = old(self).state().merged(
                    old(self).feeds_from(),
                    startup_of(*old(self), conn.startups()),
                    batch@,
                );
                &&& is_started(*old(self), conn.startups(), final(self).config())
                &&& conn.stage@.pending matches Some((_, watermark)) && final(self).state()
                    == merged.evicted_if_clean(old(self).feeds_from(), watermark.tx_hi)
                &&& if merged.to_load() == Set::<Seq<u8>>::empty() {
                    accumulated::writes(action, merged, final(self).config()->0)
                } else {
                    flush::loads(action, merged.to_load())
                }
            },
    {
        if batch.is_empty() {
            return FlushAction::Done(Ok(0));
        }
        let watermark = conn.pending_watermark().unwrap();
        let mut state = match self.accumulated.take() {
            Some(state) => state,
            None => AccumulatedState::for_processor(
                self.processor,
                conn.startup_tx_hi(self.processor.name()),
                self.flush_write_chunk_size,
                self.flush_write_concurrency,
            ),
        };
        state.merge_batch(batch);
        let action = state.flush(FlushEvent::Start, &watermark);
        self.accumulated = Some(state);
        action
    }

    /// Go on with the flush of a commit: see [`AccumulatedState::flush`].
    pub fn flush<E>(&mut self, event: FlushEvent<E>, watermark: &CommitterWatermark) -> (action: FlushAction<
        usize,
        E,
    >)
        requires
            old(self).wf(),
            old(self).config() is Some,
            match event {
                FlushEvent::Start => old(self).state().can_start(
                    old(self).feeds_from(),
                    old(self).write_chunk_size(),
                ),
                FlushEvent::LoadsDone => old(self).state().can_write(
                    old(self).feeds_from(),
                    old(self).write_chunk_size(),
                ),
                FlushEvent::Loaded { .. } => true,
                FlushEvent::Written { results, .. } => old(self).state().cleaned(
                    accumulated::written_keys(results@),
                ).can_evict(old(self).feeds_from()),
            },
        ensures
            final(self).wf(),
            final(self).feeds_from() == old(self).feeds_from(),
            final(self).write_concurrency() == old(self).write_concurrency(),
            final(self).write_chunk_size() == old(self).write_chunk_size(),
            final(self).config() == old(self).config(),
            match event {
                FlushEvent::Start => {
                    &&& final(self).state() == old(self).state().evicted_if_clean(
                        old(self).feeds_from(),
                        watermark.tx_hi,
                    )
                    &&& if old(self).state().to_load() == Set::<Seq<u8>>::empty() {
                        accumulated::writes(action, old(self).state(), old(self).config()->0)
                    } else {
                        flush::loads(action, old(self).state().to_load())
                    }
                },
                FlushEvent::Loaded { keys, fetched } => match fetched {
                    Err(error) => {
                        &&& action == FlushAction::<usize, E>::Done(Err(FlushError::Load(error)))
                        &&& final(self).state() == old(self).state()
                    },
                    Ok(fetched) => match rows::fetched_bits(
                        fetched@,
                        rows::column_bytes(old(self).config()->0.column),
                    ) {
                        None => {
                            &&& action matches FlushAction::Done(Err(FlushError::CorruptBitmap(_)))
                            &&& final(self).state() == old(self).state()
                        },
                        Some(found) => {
                            &&& action == FlushAction::<usize, E>::Wait
                            &&& final(self).state() == old(self).state().loaded(
                                chunks::contents(keys@),
                                found,
                            )
                        },
                    },
                },
                FlushEvent::LoadsDone => {
                    &&& final(self).state() == old(self).state().evicted_if_clean(
                        old(self).feeds_from(),
                        watermark.tx_hi,
                    )
                    &&& accumulated::writes(action, old(self).state(), old(self).config()->0)
                },
                FlushEvent::Written { entry_count, results } => {
                    &&& final(self).state() == old(self).state().cleaned(
                        accumulated::written_keys(results@),
                    ).evicted(old(self).feeds_from(), watermark.tx_hi)
                    &&& action == FlushAction::<usize, E>::Done(
                        match accumulated::first_error(results@) {
                            Some(error) => Err(FlushError::Write(error)),
                            None => Ok(entry_count),
                        },
                    )
                },
            },
    {
        let mut state = self.accumulated.take().unwrap();
        assert(state@ == old(self).state());
        let action = state.flush(event, watermark);
        self.accumulated = Some(state);
        action
    }

    /// Most entries in one write request.
    pub fn flush_write_chunk_size(&self) -> (chunk_size: usize)
        ensures
            chunk_size == self.write_chunk_size(),
    {
        self.flush_write_chunk_size
    }

    /// The table to read from and write to; absent before the first commit.
    pub fn table(&self) -> (table: Option<&'static str>)
        ensures
            table == match self.config() {
                Some(settings) => Some(settings.table),
                None => None,
            },
    {
        match &self.accumulated {
            Some(state) => Some(state.settings().table),
            None => None,
        }
    }
}

/// What is configured counts, and the default only where nothing is.
pub proof fn law_configuration_overrides_defaults(value: Option<usize>, default: usize)
    ensures
        value is None ==> value_or(value, default) == default,
        value matches Some(configured) ==> value_or(value, default) == configured,
{
}

/// A row of a checkpoint has one bit, that of its point, in the point's bucket, dated by
/// the checkpoint; its key is one that `encode_row_key` gives the point's dimension in
/// that bucket.
pub proof fn law_rows_hold_their_point<F: Fn(&Vec<u8>, u64) -> Vec<u8>>(
    value: BitmapIndexValue,
    point: Point,
    checkpoint: Checkpoint,
    encode_row_key: F,
    bit: u32,
)
    requires
        is_row_of(value, point, checkpoint, encode_row_key),
    ensures
        value.bucket_id == point.bucket_id,
        value@.bits.contains(bit) <==> bit == point.bit_position,
        value.max_cp == checkpoint.sequence_number,
        value.max_ts_ms == checkpoint.timestamp_ms,
        exists|key: Vec<u8>|
            key@ == point.dimension_key && #[trigger] call_ensures(
                encode_row_key,
                (&key, point.bucket_id),
                value.row_key,
            ),
{
}

/// The `tx_hi` at startup is taken over once: at the first commit it is the pipeline's
/// own, or 0 where the pipeline had none, and at every later commit it is as it was then,
/// whatever the startup watermarks are by that time.
pub proof fn law_startup_is_taken_over_once<P: BitmapIndexProcessor>(
    before: BitmapIndexHandler<P>,
    after: BitmapIndexHandler<P>,
    startups: Map<Seq<char>, u64>,
    later_startups: Map<Seq<char>, u64>,
)
    requires
        is_started(before, startups, after.config()),
    ensures
        startup_of(after, later_startups) == startup_of(before, startups),
        before.config() is None && startups.contains_key(before.feeds_from().pipeline()) ==> startup_of(
            before,
            startups,
        ) == startups[before.feeds_from().pipeline()],
        before.config() is None && !startups.contains_key(before.feeds_from().pipeline()) ==> startup_of(
            before,
            startups,
        ) == 0,
        after.config() matches Some(settings) && settings.startup_tx_hi == startup_of(before, startups),
{
}

/// A pipeline that has committed writes to its processor's table and column, in chunks
/// and with a concurrency as it was configured, and keeps doing so.
pub proof fn law_started_pipelines_keep_their_settings<P: BitmapIndexProcessor>(
    before: BitmapIndexHandler<P>,
    startups: Map<Seq<char>, u64>,
    after: Option<FlushSettings<P>>,
)
    requires
        is_started(before, startups, after),
    ensures
        before.config() is Some ==> after == before.config(),
        before.config() is None ==> {
            &&& after matches Some(settings)
            &&& settings.table@ == before.feeds_from().table_name()
            &&& settings.column@ == before.feeds_from().column_name()
            &&& settings.processor == before.feeds_from()
            &&& settings.flush_write_chunk_size == before.write_chunk_size()
            &&& settings.flush_write_concurrency == before.write_concurrency()
        },
{
}

} // verus!
