//! Watermarks: how far each pipeline has been committed.
//!
//! BigTable has no transaction over several rows. A sequential commit therefore runs
//! in line, and its watermark is staged and written only once the commit has
//! succeeded. That relies on the commit's writes being idempotent: when the write of
//! the watermark fails, the whole commit is tried again.

use vstd::hash_map::StringHashMap;
use vstd::prelude::*;

verus! {

/// How far a pipeline has been committed.
#[derive(Clone, Copy, Debug, PartialEq, Eq, Structural)]
pub struct CommitterWatermark {
    pub epoch_hi_inclusive: u64,
    pub checkpoint_hi_inclusive: u64,
    /// The number of transactions up to and with the last committed checkpoint.
    pub tx_hi: u64,
    pub timestamp_ms_hi_inclusive: u64,
}

/// Where a pipeline starts from.
#[derive(Clone, Copy, Debug, PartialEq, Eq, Structural)]
pub struct InitWatermark {
    pub checkpoint_hi_inclusive: Option<u64>,
    pub reader_lo: Option<u64>,
}

/// How far a reader may read back.
#[derive(Clone, Copy, Debug, PartialEq, Eq, Structural)]
pub struct ReaderWatermark {
    pub checkpoint_hi_inclusive: u64,
    pub reader_lo: u64,
}

/// How far a pruner has pruned, and how long it has to wait before it may go on.
#[derive(Clone, Copy, Debug, PartialEq, Eq, Structural)]
pub struct PrunerWatermark {
    pub wait_for_ms: i64,
    pub pruner_hi: u64,
}

/// The `tx_hi` that each pipeline had at startup. A pipeline that has to reconcile
/// what an earlier process wrote reads it on its first commit.
pub struct StartupTxHis {
    tx_his: StringHashMap<u64>,
}

impl View for StartupTxHis {
    type V = Map<Seq<char>, u64>;

    closed spec fn view(&self) -> Map<Seq<char>, u64> {
        self.tx_his@
    }
}

/// The `tx_hi` of a watermark that may be absent; 0 where it is.
pub open spec fn tx_hi_or_zero(watermark: Option<CommitterWatermark>) -> u64 {
    match watermark {
        Some(watermark) => watermark.tx_hi,
        None => 0,
    }
}

impl StartupTxHis {
    /// No pipeline has started.
    pub fn new() -> (tx_his: Self)
        ensures
            tx_his@ == Map::<Seq<char>, u64>::empty(),
    {
        StartupTxHis { tx_his: StringHashMap::new() }
    }

    /// Take note of the watermark that a pipeline has at startup, and say where it
    /// starts from.
    pub fn init_watermark(&mut self, pipeline: &str, persisted: Option<CommitterWatermark>) -> (init: Option<
        InitWatermark,
    >)
        ensures
            final(self)@ == old(self)@.insert(pipeline@, tx_hi_or_zero(persisted)),
            init == match persisted {
                Some(watermark) => Some(
                    InitWatermark {
                        checkpoint_hi_inclusive: Some(watermark.checkpoint_hi_inclusive),
                        reader_lo: None,
                    },
                ),
                None => None,
            },
    {
        match persisted {
            Some(watermark) => {
                self.tx_his.insert(pipeline.to_owned(), watermark.tx_hi);
                Some(
                    InitWatermark {
                        checkpoint_hi_inclusive: Some(watermark.checkpoint_hi_inclusive),
                        reader_lo: None,
                    },
                )
            },
            None => {
                self.tx_his.insert(pipeline.to_owned(), 0);
                None
            },
        }
    }

    /// The `tx_hi` that a pipeline had at startup; 0 for one that has not started or
    /// had no watermark.
    pub fn startup_tx_hi(&self, pipeline: &str) -> (tx_hi: u64)
        ensures
            tx_hi == if self@.contains_key(pipeline@) {
                self@[pipeline@]
            } else {
                0
            },
    {
        match self.tx_his.get(pipeline) {
            Some(tx_hi) => *tx_hi,
            None => 0,
        }
    }
}

/// A watermark that was set within a transaction, and waits for its end.
pub struct WatermarkStage {
    pending: Option<(String, CommitterWatermark)>,
    in_sequential_transaction: bool,
}

/// What a [`WatermarkStage`] holds.
#[verifier::ext_equal]
pub struct StageView {
    pub pending: Option<(Seq<char>, CommitterWatermark)>,
    pub in_transaction: bool,
}

impl View for WatermarkStage {
    type V = StageView;

    closed spec fn view(&self) -> StageView {
        StageView {
            pending: match self.pending {
                Some((pipeline, watermark)) => Some((pipeline@, watermark)),
                None => None,
            },
            in_transaction: self.in_sequential_transaction,
        }
    }
}

/// What to do with a watermark that was set.
#[derive(Clone, Copy, Debug, PartialEq, Eq, Structural)]
pub enum SetWatermark {
    /// Nothing now: it is staged, and written at the end of the transaction.
    Staged,
    /// Write it.
    Write(CommitterWatermark),
}

/// A transaction set the watermarks of two pipelines.
#[derive(Debug)]
pub struct StagedElsewhere {
    /// The pipeline whose watermark was set first.
    pub staged: String,
}

impl StageView {
    /// The watermark of another pipeline is staged.
    pub open spec fn staged_elsewhere(self, pipeline: Seq<char>) -> bool {
        &&& self.in_transaction
        &&& self.pending matches Some((staged, _)) && staged != pipeline
    }
}

impl WatermarkStage {
    /// Nothing is staged, outside of a transaction.
    pub fn new() -> (stage: Self)
        ensures
            stage@ == (StageView { pending: None, in_transaction: false }),
    {
        WatermarkStage { pending: None, in_sequential_transaction: false }
    }

    /// Enter a transaction.
    pub fn begin(&mut self)
        ensures
            final(self)@ == (StageView { in_transaction: true, ..old(self)@ }),
    {
        self.in_sequential_transaction = true;
    }

    /// The watermark that is staged.
    pub fn pending_watermark(&self) -> (watermark: Option<CommitterWatermark>)
        ensures
            watermark == match self@.pending {
                Some((_, watermark)) => Some(watermark),
                None => None,
            },
    {
        match &self.pending {
            Some((_, watermark)) => Some(*watermark),
            None => None,
        }
    }

    /// Set the watermark of a pipeline. Within a transaction it is staged, in place
    /// of the one that was staged for the same pipeline; a transaction has one
    /// pipeline only. Outside it is to be written.
    pub fn set_committer_watermark(&mut self, pipeline: &str, watermark: CommitterWatermark) -> (set: Result<
        SetWatermark,
        StagedElsewhere,
    >)
        ensures
            match set {
                Ok(SetWatermark::Staged) => {
                    &&& old(self)@.in_transaction
                    &&& !old(self)@.staged_elsewhere(pipeline@)
                    &&& final(self)@ == (StageView {
                        pending: Some((pipeline@, watermark)),
                        ..old(self)@
                    })
                },
                Ok(SetWatermark::Write(now)) => {
                    &&& !old(self)@.in_transaction
                    &&& now == watermark
                    &&& final(self)@ == old(self)@
                },
                Err(error) => {
                    &&& old(self)@.staged_elsewhere(pipeline@)
                    &&& old(self)@.pending matches Some((staged, _)) && error.staged@ == staged
                    &&& final(self)@ == old(self)@
                },
            },
    {
        if !self.in_sequential_transaction {
            return Ok(SetWatermark::Write(watermark));
        }
        let pipeline: String = pipeline.to_owned();
        if let Some((staged, _)) = &self.pending {
            if !(*staged == pipeline) {
                return Err(StagedElsewhere { staged: staged.clone() });
            }
        }
        self.pending = Some((pipeline, watermark));
        Ok(SetWatermark::Staged)
    }

    /// Leave a transaction whose closure returned `outcome`. If it succeeded, the
    /// watermark that it staged, if any, is to be written; if it failed, none is.
    pub fn finish<R, E>(&mut self, outcome: Result<R, E>) -> (finished: Result<
        (R, Option<(String, CommitterWatermark)>),
        E,
    >)
        ensures
            match outcome {
                Ok(result) => {
                    &&& finished matches Ok((returned, persist)) && returned == result && match persist {
                        Some((pipeline, watermark)) => old(self)@.pending == Some((pipeline@, watermark)),
                        None => old(self)@.pending is None,
                    }
                    &&& final(self)@ == (StageView { pending: None, ..old(self)@ })
                },
                Err(error) => {
                    &&& finished == Err::<(R, Option<(String, CommitterWatermark)>), E>(error)
                    &&& final(self)@ == old(self)@
                },
            },
    {
        match outcome {
            Ok(result) => Ok((result, self.pending.take())),
            Err(error) => Err(error),
        }
    }
}

/// A pipeline without a persisted watermark starts with no transaction committed, and
/// each other one with those of its watermark.
pub proof fn law_startup_counts_the_persisted_transactions(watermark: CommitterWatermark)
    ensures
        tx_hi_or_zero(None) == 0,
        tx_hi_or_zero(Some(watermark)) == watermark.tx_hi,
{
}

/// A watermark is refused exactly if, within a transaction, that of another pipeline is
/// staged. So a pipeline can always set its own again, and what is staged outside of a
/// transaction refuses nothing.
pub proof fn law_transactions_have_one_pipeline(
    pending: Option<(Seq<char>, CommitterWatermark)>,
    watermark: CommitterWatermark,
    pipeline: Seq<char>,
    other: Seq<char>,
)
    ensures
        !(StageView { pending, in_transaction: false }).staged_elsewhere(pipeline),
        !(StageView { pending: None, in_transaction: true }).staged_elsewhere(pipeline),
        (StageView { pending: Some((other, watermark)), in_transaction: true }).staged_elsewhere(pipeline) <==> other
            != pipeline,
{
}

} // verus!
