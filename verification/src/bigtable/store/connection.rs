//! The store, and connections to it.

use vstd::prelude::*;

use crate::bigtable::store::watermark;
use crate::bigtable::store::watermark::CommitterWatermark;
use crate::bigtable::store::watermark::InitWatermark;
use crate::bigtable::store::watermark::PrunerWatermark;
use crate::bigtable::store::watermark::ReaderWatermark;
use crate::bigtable::store::watermark::SetWatermark;
use crate::bigtable::store::watermark::StageView;
use crate::bigtable::store::watermark::StagedElsewhere;
use crate::bigtable::store::watermark::StartupTxHis;
use crate::bigtable::store::watermark::WatermarkStage;

verus! {

/// A store, with the client `C` that its connections use.
pub struct BigTableStore<C> {
    client: C,
    startup_tx_his: StartupTxHis,
}

/// A connection to a store. While a transaction is under way, the watermark that is
/// set on the connection is staged; it is written when the transaction has
/// succeeded.
pub struct BigTableConnection<'a, C> {
    pub client: C,
    /// The `tx_hi` that each pipeline had at startup, shared with the store.
    pub startup_tx_his: &'a mut StartupTxHis,
    /// The watermark that is staged.
    pub stage: WatermarkStage,
}

impl<C> BigTableStore<C> {
    /// The client that connections get a clone of.
    pub closed spec fn client(&self) -> C {
        self.client
    }

    /// The `tx_hi` that each pipeline had at startup.
    pub closed spec fn startups(&self) -> Map<Seq<char>, u64> {
        self.startup_tx_his@
    }
}

impl<'a, C> BigTableConnection<'a, C> {
    /// The `tx_hi` that each pipeline had at startup.
    pub open spec fn startups(&self) -> Map<Seq<char>, u64> {
        self.startup_tx_his@
    }
}

impl<C: Clone> BigTableStore<C> {
    /// A store in which no pipeline has started.
    pub fn new(client: C) -> (store: Self)
        ensures
            store.client() == client,
            store.startups() == Map::<Seq<char>, u64>::empty(),
    {
        BigTableStore { client, startup_tx_his: StartupTxHis::new() }
    }

    /// Connect to the store.
    pub fn connect(&mut self) -> (connection: BigTableConnection<'_, C>)
        ensures
            cloned(old(self).client(), connection.client),
            connection.startups() == old(self).startups(),
            connection.stage@ == (StageView { pending: None, in_transaction: false }),
            final(self).client() == old(self).client(),
            final(self).startups() == final(connection.startup_tx_his)@,
    {
        let client = self.client.clone();
        BigTableConnection {
            client,
            startup_tx_his: &mut self.startup_tx_his,
            stage: WatermarkStage::new(),
        }
    }

    /// Connect to the store, and enter a transaction.
    pub fn begin_transaction(&mut self) -> (connection: BigTableConnection<'_, C>)
        ensures
            cloned(old(self).client(), connection.client),
            connection.startups() == old(self).startups(),
            connection.stage@ == (StageView { pending: None, in_transaction: true }),
            final(self).client() == old(self).client(),
            final(self).startups() == final(connection.startup_tx_his)@,
    {
        let mut connection = self.connect();
        connection.stage.begin();
        connection
    }
}

impl<'a, C> BigTableConnection<'a, C> {
    /// The client of the connection.
    pub fn client(&mut self) -> (client: &mut C)
        ensures
            *client == old(self).client,
            final(self).client == *final(client),
            final(self).startups() == old(self).startups(),
            *final(final(self).startup_tx_his) == *final(old(self).startup_tx_his),
            final(self).stage@ == old(self).stage@,
    {
        &mut self.client
    }

    /// The watermark most recently staged in the current transaction. A sequential
    /// commit reads the watermark here that is about to be written.
    pub fn pending_watermark(&self) -> (watermark: Option<CommitterWatermark>)
        ensures
            watermark == match self.stage@.pending {
                Some((_, watermark)) => Some(watermark),
                None => None,
            },
    {
        self.stage.pending_watermark()
    }

    /// The `tx_hi` that a pipeline had at startup; 0 for one that has not started or
    /// had no watermark.
    pub fn startup_tx_hi(&self, pipeline: &str) -> (tx_hi: u64)
        ensures
            tx_hi == if self.startups().contains_key(pipeline@) {
                self.startups()[pipeline@]
            } else {
                0
            },
    {
        self.startup_tx_his.startup_tx_hi(pipeline)
    }

    /// Start a pipeline whose persisted watermark is `persisted`. Where it starts
    /// from depends on nothing else, whatever checkpoint was asked for.
    pub fn init_watermark(
        &mut self,
        pipeline: &str,
        _checkpoint_hi_inclusive: Option<u64>,
        persisted: Option<CommitterWatermark>,
    ) -> (init: Option<InitWatermark>)
        ensures
            final(self).startups() == old(self).startups().insert(
                pipeline@,
                watermark::tx_hi_or_zero(persisted),
            ),
            *final(final(self).startup_tx_his) == *final(old(self).startup_tx_his),
            final(self).client == old(self).client,
            final(self).stage@ == old(self).stage@,
            init == match persisted {
                Some(watermark) => Some(
                    InitWatermark {
                        checkpoint_hi_inclusive: Some(watermark.checkpoint_hi_inclusive),
                        reader_lo: None,
                    },
                ),
                None => None,
            },
    {
        self.startup_tx_his.init_watermark(pipeline, persisted)
    }

    /// Set the watermark of a pipeline. Within a transaction it is staged, in place
    /// of the one that was staged for the same pipeline; a transaction has one
    /// pipeline only. Outside it is to be written.
    pub fn set_committer_watermark(&mut self, pipeline: &str, watermark: CommitterWatermark) -> (set: Result<
        SetWatermark,
        StagedElsewhere,
    >)
        ensures
            final(self).startups() == old(self).startups(),
            *final(final(self).startup_tx_his) == *final(old(self).startup_tx_his),
            final(self).client == old(self).client,
            match set {
                Ok(SetWatermark::Staged) => {
                    &&& old(self).stage@.in_transaction
                    &&& !old(self).stage@.staged_elsewhere(pipeline@)
                    &&& final(self).stage@ == (StageView {
                        pending: Some((pipeline@, watermark)),
                        ..old(self).stage@
                    })
                },
                Ok(SetWatermark::Write(now)) => {
                    &&& !old(self).stage@.in_transaction
                    &&& now == watermark
                    &&& final(self).stage@ == old(self).stage@
                },
                Err(error) => {
                    &&& old(self).stage@.staged_elsewhere(pipeline@)
                    &&& old(self).stage@.pending matches Some((staged, _)) && error.staged@ == staged
                    &&& final(self).stage@ == old(self).stage@
                },
            },
    {
        self.stage.set_committer_watermark(pipeline, watermark)
    }

    /// Whether a pipeline may index the chain with this id. Chain ids are not stored,
    /// so each is accepted.
    pub fn accepts_chain_id(&self, _pipeline: &str, _chain_id: [u8; 32]) -> (accepts: bool)
        ensures
            accepts,
    {
        true
    }

    /// The reader watermark of a pipeline. None is kept.
    pub fn reader_watermark(&self, _pipeline: &str) -> (watermark: Option<ReaderWatermark>)
        ensures
            watermark is None,
    {
        None
    }

    /// The pruner watermark of a pipeline, given a delay. None is kept.
    pub fn pruner_watermark(&self, _pipeline: &str, _delay_ms: u64) -> (watermark: Option<PrunerWatermark>)
        ensures
            watermark is None,
    {
        None
    }

    /// Set the reader watermark of a pipeline. None is kept, so it is refused.
    pub fn set_reader_watermark(&self, _pipeline: &str, _reader_lo: u64) -> (set: bool)
        ensures
            !set,
    {
        false
    }

    /// Set the pruner watermark of a pipeline. None is kept, so it is refused.
    pub fn set_pruner_watermark(&self, _pipeline: &str, _pruner_hi: u64) -> (set: bool)
        ensures
            !set,
    {
        false
    }

    /// Leave a transaction whose closure returned `outcome`. If it succeeded, the
    /// watermark that it staged, if any, is to be written; if it failed, none is.
    pub fn finish_transaction<R, E>(&mut self, outcome: Result<R, E>) -> (finished: Result<
        (R, Option<(String, CommitterWatermark)>),
        E,
    >)
        ensures
            final(self).startups() == old(self).startups(),
            *final(final(self).startup_tx_his) == *final(old(self).startup_tx_his),
            final(self).client == old(self).client,
            match outcome {
                Ok(result) => {
                    &&& finished matches Ok((returned, persist)) && returned == result && match persist {
                        Some((pipeline, watermark)) => old(self).stage@.pending == Some(
                            (pipeline@, watermark),
                        ),
                        None => old(self).stage@.pending is None,
                    }
                    &&& final(self).stage@ == (StageView { pending: None, ..old(self).stage@ })
                },
                Err(error) => {
                    &&& finished == Err::<(R, Option<(String, CommitterWatermark)>), E>(error)
                    &&& final(self).stage@ == old(self).stage@
                },
            },
    {
        self.stage.finish(outcome)
    }
}

} // verus!
