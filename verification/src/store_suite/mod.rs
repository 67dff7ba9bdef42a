//! What a store has to do, as scenarios.
//!
//! A scenario is a list of calls, each with what is expected of the reply. Whoever has
//! a store makes the calls in order and holds each reply to [`meets`]. Which scenarios
//! apply depends on what the store offers: committer watermarks and chain ids, reader
//! and pruner watermarks, or transactions.

pub mod model;
pub mod scenarios;

use vstd::prelude::*;

use crate::bigtable::store::watermark::CommitterWatermark;
use crate::bigtable::store::watermark::InitWatermark;
use crate::bigtable::store::watermark::PrunerWatermark;
use crate::bigtable::store::watermark::ReaderWatermark;

verus! {

/// A call of a store.
#[derive(Clone, Copy)]
pub enum Call {
    /// Make a new connection; the calls that follow are made on it.
    Connect,
    /// Start a pipeline, at a checkpoint.
    InitWatermark(&'static str, Option<u64>),
    CommitterWatermark(&'static str),
    SetCommitterWatermark(&'static str, CommitterWatermark),
    /// Offer a pipeline the chain id that has this byte 32 times.
    AcceptsChainId(&'static str, u8),
    ReaderWatermark(&'static str),
    /// Set the `reader_lo` of a pipeline.
    SetReaderWatermark(&'static str, u64),
    /// Ask for the pruner watermark of a pipeline, given a delay in milliseconds.
    PrunerWatermark(&'static str, u64),
    /// Set the `pruner_hi` of a pipeline.
    SetPrunerWatermark(&'static str, u64),
    /// Run a transaction that sets the watermark of a pipeline and then fails.
    FailedTransaction(&'static str, CommitterWatermark),
}

/// What a store replied.
#[derive(Clone, Copy)]
pub enum Reply {
    Connected,
    Init(Option<InitWatermark>),
    Committer(Option<CommitterWatermark>),
    Answer(bool),
    Reader(Option<ReaderWatermark>),
    Pruner(Option<PrunerWatermark>),
    /// The call failed.
    Failed,
}

/// What is expected of a reply.
#[derive(Clone, Copy)]
pub enum Expect {
    Succeeds,
    Fails,
    Answers(bool),
    /// The pipeline starts at this checkpoint.
    StartsAt(Option<u64>),
    NoCommitter,
    Committer(CommitterWatermark),
    CommitterAt(u64),
    ReaderAt(u64),
    ReaderLo(u64),
    /// The pruner has to wait longer than the first number of milliseconds, and at most
    /// for the second.
    PrunerWaits(u64, u64),
    PrunerReady,
    PrunerHi(u64),
}

/// One call of a scenario.
#[derive(Clone, Copy)]
pub struct Step {
    pub call: Call,
    pub expected: Expect,
}

/// The reply is as expected.
pub open spec fn is_met(reply: Reply, expected: Expect) -> bool {
    match expected {
        Expect::Succeeds => !(reply is Failed),
        Expect::Fails => reply is Failed,
        Expect::Answers(answer) => reply == Reply::Answer(answer),
        Expect::StartsAt(checkpoint) => reply matches Reply::Init(Some(init))
            && init.checkpoint_hi_inclusive == checkpoint,
        Expect::NoCommitter => reply == Reply::Committer(None),
        Expect::Committer(watermark) => reply == Reply::Committer(Some(watermark)),
        Expect::CommitterAt(checkpoint) => reply matches Reply::Committer(Some(watermark))
            && watermark.checkpoint_hi_inclusive == checkpoint,
        Expect::ReaderAt(checkpoint) => reply matches Reply::Reader(Some(watermark))
            && watermark.checkpoint_hi_inclusive == checkpoint,
        Expect::ReaderLo(reader_lo) => reply matches Reply::Reader(Some(watermark))
            && watermark.reader_lo == reader_lo,
        Expect::PrunerWaits(longer_than_ms, at_most_ms) => reply matches Reply::Pruner(
            Some(watermark),
        ) && longer_than_ms < watermark.wait_for_ms <= at_most_ms,
        Expect::PrunerReady => reply matches Reply::Pruner(Some(watermark))
            && watermark.wait_for_ms <= 0,
        Expect::PrunerHi(pruner_hi) => reply matches Reply::Pruner(Some(watermark))
            && watermark.pruner_hi == pruner_hi,
    }
}

/// Whether a reply is as expected.
pub fn meets(reply: &Reply, expected: &Expect) -> (met: bool)
    ensures
        met == is_met(*reply, *expected),
{
    match (*expected, *reply) {
        (Expect::Succeeds, Reply::Failed) => false,
        (Expect::Succeeds, _) => true,
        (Expect::Fails, Reply::Failed) => true,
        (Expect::Answers(answer), Reply::Answer(given)) => given == answer,
        (Expect::StartsAt(checkpoint), Reply::Init(Some(init))) => match (
            init.checkpoint_hi_inclusive,
            checkpoint,
        ) {
            (Some(given), Some(checkpoint)) => given == checkpoint,
            (None, None) => true,
            _ => false,
        },
        (Expect::NoCommitter, Reply::Committer(None)) => true,
        (Expect::Committer(watermark), Reply::Committer(Some(given))) => given == watermark,
        (Expect::CommitterAt(checkpoint), Reply::Committer(Some(given))) => {
            given.checkpoint_hi_inclusive == checkpoint
        },
        (Expect::ReaderAt(checkpoint), Reply::Reader(Some(given))) => {
            given.checkpoint_hi_inclusive == checkpoint
        },
        (Expect::ReaderLo(reader_lo), Reply::Reader(Some(given))) => given.reader_lo == reader_lo,
        (
            Expect::PrunerWaits(longer_than_ms, at_most_ms),
            Reply::Pruner(Some(given)),
        ) => {
            given.wait_for_ms > 0 && (given.wait_for_ms as u64) > longer_than_ms && (given.wait_for_ms as u64)
                <= at_most_ms
        },
        (Expect::PrunerReady, Reply::Pruner(Some(given))) => given.wait_for_ms <= 0,
        (Expect::PrunerHi(pruner_hi), Reply::Pruner(Some(given))) => given.pruner_hi == pruner_hi,
        _ => false,
    }
}

/// A failed call is as expected exactly where a failure is expected, and a call that did
/// not fail never is there.
pub proof fn law_failures_are_told_apart(reply: Reply, expected: Expect)
    ensures
        reply is Failed ==> (is_met(reply, expected) <==> expected is Fails),
        expected is Fails ==> (is_met(reply, expected) <==> reply is Failed),
        expected is Succeeds ==> (is_met(reply, expected) <==> !(reply is Failed)),
{
}

/// An answer is expected exactly: the other answer is not as expected.
pub proof fn law_answers_are_held_to(answer: bool, expected: bool)
    ensures
        is_met(Reply::Answer(answer), Expect::Answers(expected)) <==> answer == expected,
{
}

/// A start is expected at one checkpoint, or at none, and no other start is as expected,
/// nor is it if the store says nothing.
pub proof fn law_starts_are_held_to(init: InitWatermark, checkpoint: Option<u64>)
    ensures
        is_met(Reply::Init(Some(init)), Expect::StartsAt(checkpoint)) <==> init.checkpoint_hi_inclusive
            == checkpoint,
        !is_met(Reply::Init(None), Expect::StartsAt(checkpoint)),
{
}

/// A committer watermark is expected in full, or at a checkpoint, or not at all.
pub proof fn law_committer_watermarks_are_held_to(
    given: CommitterWatermark,
    expected: CommitterWatermark,
    checkpoint: u64,
)
    ensures
        is_met(Reply::Committer(Some(given)), Expect::Committer(expected)) <==> {
            &&& given.epoch_hi_inclusive == expected.epoch_hi_inclusive
            &&& given.checkpoint_hi_inclusive == expected.checkpoint_hi_inclusive
            &&& given.tx_hi == expected.tx_hi
            &&& given.timestamp_ms_hi_inclusive == expected.timestamp_ms_hi_inclusive
        },
        is_met(Reply::Committer(Some(given)), Expect::CommitterAt(checkpoint)) <==> given.checkpoint_hi_inclusive
            == checkpoint,
        !is_met(Reply::Committer(Some(given)), Expect::NoCommitter),
        is_met(Reply::Committer(None), Expect::NoCommitter),
        !is_met(Reply::Committer(None), Expect::Committer(expected)),
        !is_met(Reply::Committer(None), Expect::CommitterAt(checkpoint)),
{
}

/// A reader watermark is expected at a checkpoint or with a `reader_lo`, and has to be
/// there.
pub proof fn law_reader_watermarks_are_held_to(given: ReaderWatermark, checkpoint: u64, reader_lo: u64)
    ensures
        is_met(Reply::Reader(Some(given)), Expect::ReaderAt(checkpoint)) <==> given.checkpoint_hi_inclusive
            == checkpoint,
        is_met(Reply::Reader(Some(given)), Expect::ReaderLo(reader_lo)) <==> given.reader_lo == reader_lo,
        !is_met(Reply::Reader(None), Expect::ReaderAt(checkpoint)),
        !is_met(Reply::Reader(None), Expect::ReaderLo(reader_lo)),
{
}

/// A pruner watermark is expected with a wait within bounds, without a wait, or with a
/// `pruner_hi`, and has to be there. A pruner that is ready does not wait.
pub proof fn law_pruner_watermarks_are_held_to(
    given: PrunerWatermark,
    longer_than_ms: u64,
    at_most_ms: u64,
    pruner_hi: u64,
)
    ensures
        ({
            let reply = Reply::Pruner(Some(given));
            let waits = is_met(reply, Expect::PrunerWaits(longer_than_ms, at_most_ms));
            &&& waits <==> given.wait_for_ms > longer_than_ms && given.wait_for_ms <= at_most_ms
            &&& is_met(reply, Expect::PrunerReady) <==> given.wait_for_ms <= 0
            &&& waits ==> !is_met(reply, Expect::PrunerReady)
            &&& is_met(reply, Expect::PrunerHi(pruner_hi)) <==> given.pruner_hi == pruner_hi
        }),
        !is_met(Reply::Pruner(None), Expect::PrunerWaits(longer_than_ms, at_most_ms)),
        !is_met(Reply::Pruner(None), Expect::PrunerReady),
        !is_met(Reply::Pruner(None), Expect::PrunerHi(pruner_hi)),
{
}

/// A reply of one sort is never as expected of another.
pub proof fn law_replies_of_another_sort_do_not_meet(reply: Reply, expected: Expect)
    requires
        is_met(reply, expected),
    ensures
        expected is Answers ==> reply is Answer,
        expected is StartsAt ==> reply is Init,
        expected is NoCommitter || expected is Committer || expected is CommitterAt ==> reply is Committer,
        expected is ReaderAt || expected is ReaderLo ==> reply is Reader,
        expected is PrunerWaits || expected is PrunerReady || expected is PrunerHi ==> reply is Pruner,
{
}

} // verus!
