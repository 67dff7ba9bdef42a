//! The scenarios.

use vstd::prelude::*;

use crate::bigtable::store::watermark::CommitterWatermark;
use crate::store_suite::Call;
use crate::store_suite::Expect;
use crate::store_suite::Step;

verus! {

pub const PIPELINE: &'static str = "pipeline";

pub const PIPELINE_A: &'static str = "a";

pub const PIPELINE_B: &'static str = "b";

pub const EPOCH_HI: u64 = 7;

pub const CHECKPOINT_HI: u64 = 200;

/// A checkpoint before [`CHECKPOINT_HI`].
pub const CHECKPOINT_BEFORE: u64 = 100;

/// A checkpoint after [`CHECKPOINT_HI`].
pub const CHECKPOINT_AFTER: u64 = 201;

pub const TX_HI: u64 = 42;

pub const TIMESTAMP_MS_HI: u64 = 99;

pub const READER_LO: u64 = 123;

/// A `reader_lo` before [`READER_LO`].
pub const READER_BEFORE: u64 = 122;

pub const PRUNER_HI: u64 = 77;

/// A `pruner_hi` before [`PRUNER_HI`].
pub const PRUNER_BEFORE: u64 = 76;

pub const ONE_HOUR_MS: u64 = 3600000;

/// An hour, less what a slow machine may take between two calls.
pub const ALMOST_ONE_HOUR_MS: u64 = 3500000;

/// Every byte of a chain id.
pub const CHAIN_A: u8 = 1;

pub const CHAIN_B: u8 = 2;

/// The watermark of the scenarios, at a checkpoint.
#[verifier::allow_in_spec]
pub fn at(checkpoint_hi_inclusive: u64) -> CommitterWatermark
    returns
        (CommitterWatermark {
            epoch_hi_inclusive: EPOCH_HI,
            checkpoint_hi_inclusive,
            tx_hi: TX_HI,
            timestamp_ms_hi_inclusive: TIMESTAMP_MS_HI,
        }),
{
    CommitterWatermark {
        epoch_hi_inclusive: EPOCH_HI,
        checkpoint_hi_inclusive,
        tx_hi: TX_HI,
        timestamp_ms_hi_inclusive: TIMESTAMP_MS_HI,
    }
}

/// A watermark that says nothing but the checkpoint.
#[verifier::allow_in_spec]
pub fn blank(checkpoint_hi_inclusive: u64) -> CommitterWatermark
    returns
        (CommitterWatermark {
            epoch_hi_inclusive: 0,
            checkpoint_hi_inclusive,
            tx_hi: 0,
            timestamp_ms_hi_inclusive: 0,
        }),
{
    CommitterWatermark {
        epoch_hi_inclusive: 0,
        checkpoint_hi_inclusive,
        tx_hi: 0,
        timestamp_ms_hi_inclusive: 0,
    }
}

/// A call, with what is expected of the reply.
#[verifier::allow_in_spec]
pub fn step(call: Call, expected: Expect) -> Step
    returns
        (Step { call, expected }),
{
    Step { call, expected }
}

/// A pipeline that has started and been committed up to a checkpoint.
pub open spec fn bootstrap(checkpoint_hi_inclusive: u64) -> Seq<Step> {
    seq![
        step(Call::Connect, Expect::Succeeds),
        step(Call::InitWatermark(PIPELINE, None), Expect::Succeeds),
        step(
            Call::SetCommitterWatermark(PIPELINE, blank(checkpoint_hi_inclusive)),
            Expect::Succeeds,
        ),
    ]
}

/// Start a pipeline and commit it up to a checkpoint.
fn concurrent_bootstrap(checkpoint_hi_inclusive: u64) -> (steps: Vec<Step>)
    ensures
        steps@ == bootstrap(checkpoint_hi_inclusive),
{
    let steps = vec![
        step(Call::Connect, Expect::Succeeds),
        step(Call::InitWatermark(PIPELINE, None), Expect::Succeeds),
        step(
            Call::SetCommitterWatermark(PIPELINE, blank(checkpoint_hi_inclusive)),
            Expect::Succeeds,
        ),
    ];
    assert(steps@ =~= bootstrap(checkpoint_hi_inclusive));
    steps
}

/// The scenarios.
pub enum Scenario {
    InitFreshWithoutCheckpoint,
    InitFreshWithCheckpoint,
    InitReturnsExisting,
    CommitterInitialIsNone,
    CommitterRoundtrip,
    CommitterAdvances,
    CommitterRejectsRegression,
    ChainIdFirst,
    ChainIdMatching,
    ChainIdMismatching,
    ChainIdDistinctPipelines,
    ReaderRoundtrip,
    PrunerWaits,
    PrunerSaturates,
    PrunerRoundtrip,
    ReaderRejectsStale,
    PrunerRejectsStale,
    TransactionRollsBack,
}

/// The steps of a scenario.
pub open spec fn steps_of(scenario: Scenario) -> Seq<Step> {
    match scenario {
        Scenario::InitFreshWithoutCheckpoint => seq![
            step(Call::Connect, Expect::Succeeds),
            step(Call::InitWatermark(PIPELINE, None), Expect::StartsAt(None)),
        ],
        Scenario::InitFreshWithCheckpoint => seq![
            step(Call::Connect, Expect::Succeeds),
            step(
                Call::InitWatermark(PIPELINE, Some(CHECKPOINT_HI)),
                Expect::StartsAt(Some(CHECKPOINT_HI)),
            ),
        ],
        Scenario::InitReturnsExisting => seq![
            step(Call::Connect, Expect::Succeeds),
            step(Call::InitWatermark(PIPELINE, Some(CHECKPOINT_HI)), Expect::Succeeds),
            step(Call::SetCommitterWatermark(PIPELINE, at(CHECKPOINT_HI)), Expect::Succeeds),
            step(Call::InitWatermark(PIPELINE, Some(0)), Expect::StartsAt(Some(CHECKPOINT_HI))),
        ],
        Scenario::CommitterInitialIsNone => seq![
            step(Call::Connect, Expect::Succeeds),
            step(Call::InitWatermark(PIPELINE, None), Expect::Succeeds),
            step(Call::CommitterWatermark(PIPELINE), Expect::NoCommitter),
        ],
        Scenario::CommitterRoundtrip => seq![
            step(Call::Connect, Expect::Succeeds),
            step(Call::InitWatermark(PIPELINE, None), Expect::Succeeds),
            step(Call::SetCommitterWatermark(PIPELINE, at(CHECKPOINT_HI)), Expect::Answers(true)),
            step(Call::CommitterWatermark(PIPELINE), Expect::Committer(at(CHECKPOINT_HI))),
        ],
        Scenario::CommitterAdvances => seq![
            step(Call::Connect, Expect::Succeeds),
            step(Call::InitWatermark(PIPELINE, None), Expect::Succeeds),
            step(
                Call::SetCommitterWatermark(PIPELINE, at(CHECKPOINT_BEFORE)),
                Expect::Answers(true),
            ),
            step(Call::SetCommitterWatermark(PIPELINE, at(CHECKPOINT_HI)), Expect::Answers(true)),
            step(Call::CommitterWatermark(PIPELINE), Expect::CommitterAt(CHECKPOINT_HI)),
        ],
        Scenario::CommitterRejectsRegression => seq![
            step(Call::Connect, Expect::Succeeds),
            step(Call::InitWatermark(PIPELINE, None), Expect::Succeeds),
            step(Call::SetCommitterWatermark(PIPELINE, at(CHECKPOINT_HI)), Expect::Answers(true)),
            step(
                Call::SetCommitterWatermark(PIPELINE, at(CHECKPOINT_BEFORE)),
                Expect::Answers(false),
            ),
            step(Call::CommitterWatermark(PIPELINE), Expect::CommitterAt(CHECKPOINT_HI)),
        ],
        Scenario::ChainIdFirst => seq![
            step(Call::Connect, Expect::Succeeds),
            step(Call::InitWatermark(PIPELINE, None), Expect::Succeeds),
            step(Call::AcceptsChainId(PIPELINE, CHAIN_A), Expect::Answers(true)),
        ],
        Scenario::ChainIdMatching => seq![
            step(Call::Connect, Expect::Succeeds),
            step(Call::InitWatermark(PIPELINE, None), Expect::Succeeds),
            step(Call::AcceptsChainId(PIPELINE, CHAIN_A), Expect::Answers(true)),
            step(Call::AcceptsChainId(PIPELINE, CHAIN_A), Expect::Answers(true)),
        ],
        Scenario::ChainIdMismatching => seq![
            step(Call::Connect, Expect::Succeeds),
            step(Call::InitWatermark(PIPELINE, None), Expect::Succeeds),
            step(Call::AcceptsChainId(PIPELINE, CHAIN_A), Expect::Answers(true)),
            step(Call::AcceptsChainId(PIPELINE, CHAIN_B), Expect::Answers(false)),
            step(Call::AcceptsChainId(PIPELINE, CHAIN_A), Expect::Answers(true)),
        ],
        Scenario::ChainIdDistinctPipelines => seq![
            step(Call::Connect, Expect::Succeeds),
            step(Call::InitWatermark(PIPELINE_A, None), Expect::Succeeds),
            step(Call::InitWatermark(PIPELINE_B, None), Expect::Succeeds),
            step(Call::AcceptsChainId(PIPELINE_A, CHAIN_A), Expect::Answers(true)),
            step(Call::AcceptsChainId(PIPELINE_B, CHAIN_B), Expect::Answers(true)),
            step(Call::AcceptsChainId(PIPELINE_A, CHAIN_B), Expect::Answers(false)),
        ],
        Scenario::ReaderRoundtrip => bootstrap(CHECKPOINT_HI) + seq![
            step(Call::ReaderWatermark(PIPELINE), Expect::ReaderAt(CHECKPOINT_HI)),
            step(Call::SetReaderWatermark(PIPELINE, READER_LO), Expect::Answers(true)),
            step(Call::ReaderWatermark(PIPELINE), Expect::ReaderLo(READER_LO)),
        ],
        Scenario::PrunerWaits => bootstrap(CHECKPOINT_HI) + seq![
            step(
                Call::PrunerWatermark(PIPELINE, ONE_HOUR_MS),
                Expect::PrunerWaits(ALMOST_ONE_HOUR_MS, ONE_HOUR_MS),
            ),
        ],
        Scenario::PrunerSaturates => bootstrap(CHECKPOINT_HI) + seq![
            step(Call::PrunerWatermark(PIPELINE, 0), Expect::PrunerReady),
        ],
        Scenario::PrunerRoundtrip => bootstrap(CHECKPOINT_HI) + seq![
            step(Call::SetPrunerWatermark(PIPELINE, PRUNER_HI), Expect::Answers(true)),
            step(Call::PrunerWatermark(PIPELINE, 0), Expect::PrunerHi(PRUNER_HI)),
        ],
        Scenario::ReaderRejectsStale => bootstrap(CHECKPOINT_HI) + seq![
            step(Call::SetReaderWatermark(PIPELINE, READER_LO), Expect::Answers(true)),
            step(Call::SetReaderWatermark(PIPELINE, READER_LO), Expect::Answers(false)),
            step(Call::SetReaderWatermark(PIPELINE, READER_BEFORE), Expect::Answers(false)),
        ],
        Scenario::PrunerRejectsStale => bootstrap(CHECKPOINT_HI) + seq![
            step(Call::SetPrunerWatermark(PIPELINE, PRUNER_HI), Expect::Answers(true)),
            step(Call::SetPrunerWatermark(PIPELINE, PRUNER_HI), Expect::Answers(false)),
            step(Call::SetPrunerWatermark(PIPELINE, PRUNER_BEFORE), Expect::Answers(false)),
        ],
        Scenario::TransactionRollsBack => seq![
            step(Call::Connect, Expect::Succeeds),
            step(Call::InitWatermark(PIPELINE, None), Expect::Succeeds),
            step(Call::SetCommitterWatermark(PIPELINE, at(CHECKPOINT_HI)), Expect::Answers(true)),
            step(Call::FailedTransaction(PIPELINE, at(CHECKPOINT_AFTER)), Expect::Fails),
            step(Call::Connect, Expect::Succeeds),
            step(Call::CommitterWatermark(PIPELINE), Expect::CommitterAt(CHECKPOINT_HI)),
        ],
    }
}

/// A pipeline that starts without a checkpoint has none.
pub fn init_watermark_fresh_without_checkpoint() -> (steps: Vec<Step>)
    ensures
        steps@ == steps_of(Scenario::InitFreshWithoutCheckpoint),
{
    let steps = vec![
        step(Call::Connect, Expect::Succeeds),
        step(Call::InitWatermark(PIPELINE, None), Expect::StartsAt(None)),
    ];
    assert(steps@ =~= steps_of(Scenario::InitFreshWithoutCheckpoint));
    steps
}

/// A pipeline that starts at a checkpoint starts there.
pub fn init_watermark_fresh_with_checkpoint() -> (steps: Vec<Step>)
    ensures
        steps@ == steps_of(Scenario::InitFreshWithCheckpoint),
{
    let steps = vec![
        step(Call::Connect, Expect::Succeeds),
        step(
            Call::InitWatermark(PIPELINE, Some(CHECKPOINT_HI)),
            Expect::StartsAt(Some(CHECKPOINT_HI)),
        ),
    ];
    assert(steps@ =~= steps_of(Scenario::InitFreshWithCheckpoint));
    steps
}

/// A pipeline that starts again starts where it was, not where it is told to.
pub fn init_watermark_returns_existing_on_conflict() -> (steps: Vec<Step>)
    ensures
        steps@ == steps_of(Scenario::InitReturnsExisting),
{
    let steps = vec![
        step(Call::Connect, Expect::Succeeds),
        step(Call::InitWatermark(PIPELINE, Some(CHECKPOINT_HI)), Expect::Succeeds),
        step(Call::SetCommitterWatermark(PIPELINE, at(CHECKPOINT_HI)), Expect::Succeeds),
        step(Call::InitWatermark(PIPELINE, Some(0)), Expect::StartsAt(Some(CHECKPOINT_HI))),
    ];
    assert(steps@ =~= steps_of(Scenario::InitReturnsExisting));
    steps
}

/// A pipeline that has just started has no committer watermark.
pub fn committer_watermark_initial_is_none() -> (steps: Vec<Step>)
    ensures
        steps@ == steps_of(Scenario::CommitterInitialIsNone),
{
    let steps = vec![
        step(Call::Connect, Expect::Succeeds),
        step(Call::InitWatermark(PIPELINE, None), Expect::Succeeds),
        step(Call::CommitterWatermark(PIPELINE), Expect::NoCommitter),
    ];
    assert(steps@ =~= steps_of(Scenario::CommitterInitialIsNone));
    steps
}

/// A committer watermark is read as it was set.
pub fn committer_watermark_roundtrip() -> (steps: Vec<Step>)
    ensures
        steps@ == steps_of(Scenario::CommitterRoundtrip),
{
    let steps = vec![
        step(Call::Connect, Expect::Succeeds),
        step(Call::InitWatermark(PIPELINE, None), Expect::Succeeds),
        step(Call::SetCommitterWatermark(PIPELINE, at(CHECKPOINT_HI)), Expect::Answers(true)),
        step(Call::CommitterWatermark(PIPELINE), Expect::Committer(at(CHECKPOINT_HI))),
    ];
    assert(steps@ =~= steps_of(Scenario::CommitterRoundtrip));
    steps
}

/// A committer watermark can advance.
pub fn set_committer_watermark_advances() -> (steps: Vec<Step>)
    ensures
        steps@ == steps_of(Scenario::CommitterAdvances),
{
    let steps = vec![
        step(Call::Connect, Expect::Succeeds),
        step(Call::InitWatermark(PIPELINE, None), Expect::Succeeds),
        step(Call::SetCommitterWatermark(PIPELINE, at(CHECKPOINT_BEFORE)), Expect::Answers(true)),
        step(Call::SetCommitterWatermark(PIPELINE, at(CHECKPOINT_HI)), Expect::Answers(true)),
        step(Call::CommitterWatermark(PIPELINE), Expect::CommitterAt(CHECKPOINT_HI)),
    ];
    assert(steps@ =~= steps_of(Scenario::CommitterAdvances));
    steps
}

/// A committer watermark does not go back.
pub fn set_committer_watermark_rejects_regression() -> (steps: Vec<Step>)
    ensures
        steps@ == steps_of(Scenario::CommitterRejectsRegression),
{
    let steps = vec![
        step(Call::Connect, Expect::Succeeds),
        step(Call::InitWatermark(PIPELINE, None), Expect::Succeeds),
        step(Call::SetCommitterWatermark(PIPELINE, at(CHECKPOINT_HI)), Expect::Answers(true)),
        step(Call::SetCommitterWatermark(PIPELINE, at(CHECKPOINT_BEFORE)), Expect::Answers(false)),
        step(Call::CommitterWatermark(PIPELINE), Expect::CommitterAt(CHECKPOINT_HI)),
    ];
    assert(steps@ =~= steps_of(Scenario::CommitterRejectsRegression));
    steps
}

/// A pipeline accepts the first chain id that it is given.
pub fn accepts_chain_id_first_call_writes_and_accepts() -> (steps: Vec<Step>)
    ensures
        steps@ == steps_of(Scenario::ChainIdFirst),
{
    let steps = vec![
        step(Call::Connect, Expect::Succeeds),
        step(Call::InitWatermark(PIPELINE, None), Expect::Succeeds),
        step(Call::AcceptsChainId(PIPELINE, CHAIN_A), Expect::Answers(true)),
    ];
    assert(steps@ =~= steps_of(Scenario::ChainIdFirst));
    steps
}

/// A pipeline accepts its chain id again.
pub fn accepts_chain_id_matching_accepts() -> (steps: Vec<Step>)
    ensures
        steps@ == steps_of(Scenario::ChainIdMatching),
{
    let steps = vec![
        step(Call::Connect, Expect::Succeeds),
        step(Call::InitWatermark(PIPELINE, None), Expect::Succeeds),
        step(Call::AcceptsChainId(PIPELINE, CHAIN_A), Expect::Answers(true)),
        step(Call::AcceptsChainId(PIPELINE, CHAIN_A), Expect::Answers(true)),
    ];
    assert(steps@ =~= steps_of(Scenario::ChainIdMatching));
    steps
}

/// A pipeline rejects another chain id, and keeps its own.
pub fn accepts_chain_id_mismatching_rejects() -> (steps: Vec<Step>)
    ensures
        steps@ == steps_of(Scenario::ChainIdMismatching),
{
    let steps = vec![
        step(Call::Connect, Expect::Succeeds),
        step(Call::InitWatermark(PIPELINE, None), Expect::Succeeds),
        step(Call::AcceptsChainId(PIPELINE, CHAIN_A), Expect::Answers(true)),
        step(Call::AcceptsChainId(PIPELINE, CHAIN_B), Expect::Answers(false)),
        step(Call::AcceptsChainId(PIPELINE, CHAIN_A), Expect::Answers(true)),
    ];
    assert(steps@ =~= steps_of(Scenario::ChainIdMismatching));
    steps
}

/// Each pipeline has a chain id of its own.
pub fn accepts_chain_id_distinct_pipelines() -> (steps: Vec<Step>)
    ensures
        steps@ == steps_of(Scenario::ChainIdDistinctPipelines),
{
    let steps = vec![
        step(Call::Connect, Expect::Succeeds),
        step(Call::InitWatermark(PIPELINE_A, None), Expect::Succeeds),
        step(Call::InitWatermark(PIPELINE_B, None), Expect::Succeeds),
        step(Call::AcceptsChainId(PIPELINE_A, CHAIN_A), Expect::Answers(true)),
        step(Call::AcceptsChainId(PIPELINE_B, CHAIN_B), Expect::Answers(true)),
        step(Call::AcceptsChainId(PIPELINE_A, CHAIN_B), Expect::Answers(false)),
    ];
    assert(steps@ =~= steps_of(Scenario::ChainIdDistinctPipelines));
    steps
}

/// A reader watermark is read as it was set.
pub fn reader_watermark_roundtrip() -> (steps: Vec<Step>)
    ensures
        steps@ == steps_of(Scenario::ReaderRoundtrip),
{
    let mut steps = concurrent_bootstrap(CHECKPOINT_HI);
    steps.push(step(Call::ReaderWatermark(PIPELINE), Expect::ReaderAt(CHECKPOINT_HI)));
    steps.push(step(Call::SetReaderWatermark(PIPELINE, READER_LO), Expect::Answers(true)));
    steps.push(step(Call::ReaderWatermark(PIPELINE), Expect::ReaderLo(READER_LO)));
    assert(steps@ =~= steps_of(Scenario::ReaderRoundtrip));
    steps
}

/// Right after a start, the pruner has to wait for almost the whole delay.
pub fn pruner_watermark_wait_for_ms() -> (steps: Vec<Step>)
    ensures
        steps@ == steps_of(Scenario::PrunerWaits),
{
    let mut steps = concurrent_bootstrap(CHECKPOINT_HI);
    steps.push(
        step(
            Call::PrunerWatermark(PIPELINE, ONE_HOUR_MS),
            Expect::PrunerWaits(ALMOST_ONE_HOUR_MS, ONE_HOUR_MS),
        ),
    );
    assert(steps@ =~= steps_of(Scenario::PrunerWaits));
    steps
}

/// Without a delay, the pruner does not have to wait.
pub fn pruner_watermark_saturates_when_ready() -> (steps: Vec<Step>)
    ensures
        steps@ == steps_of(Scenario::PrunerSaturates),
{
    let mut steps = concurrent_bootstrap(CHECKPOINT_HI);
    steps.push(step(Call::PrunerWatermark(PIPELINE, 0), Expect::PrunerReady));
    assert(steps@ =~= steps_of(Scenario::PrunerSaturates));
    steps
}

/// A pruner watermark is read as it was set.
pub fn set_pruner_watermark_roundtrip() -> (steps: Vec<Step>)
    ensures
        steps@ == steps_of(Scenario::PrunerRoundtrip),
{
    let mut steps = concurrent_bootstrap(CHECKPOINT_HI);
    steps.push(step(Call::SetPrunerWatermark(PIPELINE, PRUNER_HI), Expect::Answers(true)));
    steps.push(step(Call::PrunerWatermark(PIPELINE, 0), Expect::PrunerHi(PRUNER_HI)));
    assert(steps@ =~= steps_of(Scenario::PrunerRoundtrip));
    steps
}

/// A reader watermark only advances.
pub fn set_reader_watermark_rejects_stale() -> (steps: Vec<Step>)
    ensures
        steps@ == steps_of(Scenario::ReaderRejectsStale),
{
    let mut steps = concurrent_bootstrap(CHECKPOINT_HI);
    steps.push(step(Call::SetReaderWatermark(PIPELINE, READER_LO), Expect::Answers(true)));
    steps.push(step(Call::SetReaderWatermark(PIPELINE, READER_LO), Expect::Answers(false)));
    steps.push(step(Call::SetReaderWatermark(PIPELINE, READER_BEFORE), Expect::Answers(false)));
    assert(steps@ =~= steps_of(Scenario::ReaderRejectsStale));
    steps
}

/// A pruner watermark only advances.
pub fn set_pruner_watermark_rejects_stale() -> (steps: Vec<Step>)
    ensures
        steps@ == steps_of(Scenario::PrunerRejectsStale),
{
    let mut steps = concurrent_bootstrap(CHECKPOINT_HI);
    steps.push(step(Call::SetPrunerWatermark(PIPELINE, PRUNER_HI), Expect::Answers(true)));
    steps.push(step(Call::SetPrunerWatermark(PIPELINE, PRUNER_HI), Expect::Answers(false)));
    steps.push(step(Call::SetPrunerWatermark(PIPELINE, PRUNER_BEFORE), Expect::Answers(false)));
    assert(steps@ =~= steps_of(Scenario::PrunerRejectsStale));
    steps
}

/// A transaction that fails leaves no trace.
pub fn transaction_rolls_back_on_error() -> (steps: Vec<Step>)
    ensures
        steps@ == steps_of(Scenario::TransactionRollsBack),
{
    let steps = vec![
        step(Call::Connect, Expect::Succeeds),
        step(Call::InitWatermark(PIPELINE, None), Expect::Succeeds),
        step(Call::SetCommitterWatermark(PIPELINE, at(CHECKPOINT_HI)), Expect::Answers(true)),
        step(Call::FailedTransaction(PIPELINE, at(CHECKPOINT_AFTER)), Expect::Fails),
        step(Call::Connect, Expect::Succeeds),
        step(Call::CommitterWatermark(PIPELINE), Expect::CommitterAt(CHECKPOINT_HI)),
    ];
    assert(steps@ =~= steps_of(Scenario::TransactionRollsBack));
    steps
}

/// The `i`-th step makes the call and expects this of the reply.
pub open spec fn asks(steps: Seq<Step>, i: int, call: Call, expected: Expect) -> bool {
    &&& 0 <= i < steps.len()
    &&& steps[i].call == call
    &&& steps[i].expected == expected
}

/// The pipeline is started before the `i`-th step.
pub open spec fn starts_before(steps: Seq<Step>, i: int, pipeline: &'static str) -> bool {
    exists|j: int|
        0 <= j < i && ((#[trigger] steps[j]).call matches Call::InitWatermark(started, _) && started == pipeline)
}

/// The pipeline of a call, if it has one.
pub open spec fn pipeline_of(call: Call) -> Option<&'static str> {
    match call {
        Call::Connect => None,
        Call::InitWatermark(pipeline, _) => Some(pipeline),
        Call::CommitterWatermark(pipeline) => Some(pipeline),
        Call::SetCommitterWatermark(pipeline, _) => Some(pipeline),
        Call::AcceptsChainId(pipeline, _) => Some(pipeline),
        Call::ReaderWatermark(pipeline) => Some(pipeline),
        Call::SetReaderWatermark(pipeline, _) => Some(pipeline),
        Call::PrunerWatermark(pipeline, _) => Some(pipeline),
        Call::SetPrunerWatermark(pipeline, _) => Some(pipeline),
        Call::FailedTransaction(pipeline, _) => Some(pipeline),
    }
}

/// Every scenario connects first, and starts a pipeline before it asks anything else of
/// it.
pub proof fn law_scenarios_start_their_pipelines(scenario: Scenario, i: int)
    requires
        0 <= i < steps_of(scenario).len(),
    ensures
        asks(steps_of(scenario), 0, Call::Connect, Expect::Succeeds),
        ({
            let call = steps_of(scenario)[i].call;
            !(call is Connect || call is InitWatermark) ==> starts_before(
                steps_of(scenario),
                i,
                pipeline_of(call)->0,
            )
        }),
{
    let steps = steps_of(scenario);
    assert(steps[1].call is InitWatermark);
    if scenario is ChainIdDistinctPipelines {
        assert(steps[2].call is InitWatermark);
    }
}

/// What the scenarios of a start check: a fresh pipeline starts where it is told to, or
/// nowhere, and one that was committed starts where it was, not where it is told to.
pub proof fn law_starts_are_checked()
    ensures
        exists|i: int, p: &'static str| #[trigger]
            asks(
                steps_of(Scenario::InitFreshWithoutCheckpoint),
                i,
                Call::InitWatermark(p, None),
                Expect::StartsAt(None),
            ),
        exists|i: int, p: &'static str, c: u64| #[trigger]
            asks(
                steps_of(Scenario::InitFreshWithCheckpoint),
                i,
                Call::InitWatermark(p, Some(c)),
                Expect::StartsAt(Some(c)),
            ),
        exists|i: int, j: int, p: &'static str, w: CommitterWatermark, c: u64|
            i < j && c != w.checkpoint_hi_inclusive && #[trigger] asks(
                steps_of(Scenario::InitReturnsExisting),
                i,
                Call::SetCommitterWatermark(p, w),
                Expect::Succeeds,
            ) && #[trigger] asks(
                steps_of(Scenario::InitReturnsExisting),
                j,
                Call::InitWatermark(p, Some(c)),
                Expect::StartsAt(Some(w.checkpoint_hi_inclusive)),
            ),
{
    assert(asks(
        steps_of(Scenario::InitFreshWithoutCheckpoint),
        1,
        Call::InitWatermark(PIPELINE, None),
        Expect::StartsAt(None),
    ));
    assert(asks(
        steps_of(Scenario::InitFreshWithCheckpoint),
        1,
        Call::InitWatermark(PIPELINE, Some(CHECKPOINT_HI)),
        Expect::StartsAt(Some(CHECKPOINT_HI)),
    ));
    let steps = steps_of(Scenario::InitReturnsExisting);
    let w = at(CHECKPOINT_HI);
    assert(asks(steps, 2, Call::SetCommitterWatermark(PIPELINE, w), Expect::Succeeds));
    assert(asks(
        steps,
        3,
        Call::InitWatermark(PIPELINE, Some(0)),
        Expect::StartsAt(Some(w.checkpoint_hi_inclusive)),
    ));
}

/// What the scenarios of committer watermarks check: there is none before one is set; it
/// is read as it was set, in full; one that advances is taken and read, and one that goes
/// back is refused and not read; and one that a failed transaction set is not read.
pub proof fn law_committer_watermarks_are_checked()
    ensures
        exists|i: int, p: &'static str| #[trigger]
            asks(
                steps_of(Scenario::CommitterInitialIsNone),
                i,
                Call::CommitterWatermark(p),
                Expect::NoCommitter,
            ),
        exists|i: int, j: int, p: &'static str, w: CommitterWatermark|
            i < j && w.epoch_hi_inclusive > 0 && w.tx_hi > 0 && w.timestamp_ms_hi_inclusive > 0 && #[trigger] asks(
                steps_of(Scenario::CommitterRoundtrip),
                i,
                Call::SetCommitterWatermark(p, w),
                Expect::Answers(true),
            ) && #[trigger] asks(
                steps_of(Scenario::CommitterRoundtrip),
                j,
                Call::CommitterWatermark(p),
                Expect::Committer(w),
            ),
        exists|i: int, j: int, k: int, p: &'static str, w: CommitterWatermark, v: CommitterWatermark|
            i < j < k && w.checkpoint_hi_inclusive < v.checkpoint_hi_inclusive && #[trigger] asks(
                steps_of(Scenario::CommitterAdvances),
                i,
                Call::SetCommitterWatermark(p, w),
                Expect::Answers(true),
            ) && #[trigger] asks(
                steps_of(Scenario::CommitterAdvances),
                j,
                Call::SetCommitterWatermark(p, v),
                Expect::Answers(true),
            ) && #[trigger] asks(
                steps_of(Scenario::CommitterAdvances),
                k,
                Call::CommitterWatermark(p),
                Expect::CommitterAt(v.checkpoint_hi_inclusive),
            ),
        exists|i: int, j: int, k: int, p: &'static str, w: CommitterWatermark, v: CommitterWatermark|
            i < j < k && v.checkpoint_hi_inclusive < w.checkpoint_hi_inclusive && #[trigger] asks(
                steps_of(Scenario::CommitterRejectsRegression),
                i,
                Call::SetCommitterWatermark(p, w),
                Expect::Answers(true),
            ) && #[trigger] asks(
                steps_of(Scenario::CommitterRejectsRegression),
                j,
                Call::SetCommitterWatermark(p, v),
                Expect::Answers(false),
            ) && #[trigger] asks(
                steps_of(Scenario::CommitterRejectsRegression),
                k,
                Call::CommitterWatermark(p),
                Expect::CommitterAt(w.checkpoint_hi_inclusive),
            ),
        exists|i: int, j: int, k: int, p: &'static str, w: CommitterWatermark, v: CommitterWatermark|
            i < j < k && v.checkpoint_hi_inclusive > w.checkpoint_hi_inclusive && #[trigger] asks(
                steps_of(Scenario::TransactionRollsBack),
                i,
                Call::SetCommitterWatermark(p, w),
                Expect::Answers(true),
            ) && #[trigger] asks(
                steps_of(Scenario::TransactionRollsBack),
                j,
                Call::FailedTransaction(p, v),
                Expect::Fails,
            ) && #[trigger] asks(
                steps_of(Scenario::TransactionRollsBack),
                k,
                Call::CommitterWatermark(p),
                Expect::CommitterAt(w.checkpoint_hi_inclusive),
            ),
{
    let p = PIPELINE;
    let low = at(CHECKPOINT_BEFORE);
    let high = at(CHECKPOINT_HI);
    let higher = at(CHECKPOINT_AFTER);
    assert(asks(
        steps_of(Scenario::CommitterInitialIsNone),
        2,
        Call::CommitterWatermark(p),
        Expect::NoCommitter,
    ));
    let steps = steps_of(Scenario::CommitterRoundtrip);
    assert(asks(steps, 2, Call::SetCommitterWatermark(p, high), Expect::Answers(true)));
    assert(asks(steps, 3, Call::CommitterWatermark(p), Expect::Committer(high)));
    let steps = steps_of(Scenario::CommitterAdvances);
    assert(asks(steps, 2, Call::SetCommitterWatermark(p, low), Expect::Answers(true)));
    assert(asks(steps, 3, Call::SetCommitterWatermark(p, high), Expect::Answers(true)));
    assert(asks(steps, 4, Call::CommitterWatermark(p), Expect::CommitterAt(high.checkpoint_hi_inclusive)));
    let steps = steps_of(Scenario::CommitterRejectsRegression);
    assert(asks(steps, 2, Call::SetCommitterWatermark(p, high), Expect::Answers(true)));
    assert(asks(steps, 3, Call::SetCommitterWatermark(p, low), Expect::Answers(false)));
    assert(asks(steps, 4, Call::CommitterWatermark(p), Expect::CommitterAt(high.checkpoint_hi_inclusive)));
    let steps = steps_of(Scenario::TransactionRollsBack);
    assert(asks(steps, 2, Call::SetCommitterWatermark(p, high), Expect::Answers(true)));
    assert(asks(steps, 3, Call::FailedTransaction(p, higher), Expect::Fails));
    assert(asks(steps, 5, Call::CommitterWatermark(p), Expect::CommitterAt(high.checkpoint_hi_inclusive)));
}

/// What the scenarios of chain ids check: the first is accepted, and again; another one
/// is rejected, and the first is accepted after that; and each pipeline has its own.
pub proof fn law_chain_ids_are_checked()
    ensures
        exists|i: int, p: &'static str, a: u8| #[trigger]
            asks(steps_of(Scenario::ChainIdFirst), i, Call::AcceptsChainId(p, a), Expect::Answers(true)),
        exists|i: int, j: int, p: &'static str, a: u8|
            i < j && #[trigger] asks(
                steps_of(Scenario::ChainIdMatching),
                i,
                Call::AcceptsChainId(p, a),
                Expect::Answers(true),
            ) && #[trigger] asks(
                steps_of(Scenario::ChainIdMatching),
                j,
                Call::AcceptsChainId(p, a),
                Expect::Answers(true),
            ),
        exists|i: int, j: int, k: int, p: &'static str, a: u8, b: u8|
            i < j < k && a != b && #[trigger] asks(
                steps_of(Scenario::ChainIdMismatching),
                i,
                Call::AcceptsChainId(p, a),
                Expect::Answers(true),
            ) && #[trigger] asks(
                steps_of(Scenario::ChainIdMismatching),
                j,
                Call::AcceptsChainId(p, b),
                Expect::Answers(false),
            ) && #[trigger] asks(
                steps_of(Scenario::ChainIdMismatching),
                k,
                Call::AcceptsChainId(p, a),
                Expect::Answers(true),
            ),
        exists|i: int, j: int, k: int, p: &'static str, q: &'static str, a: u8, b: u8|
            i < j < k && a != b && p@ != q@ && #[trigger] asks(
                steps_of(Scenario::ChainIdDistinctPipelines),
                i,
                Call::AcceptsChainId(p, a),
                Expect::Answers(true),
            ) && #[trigger] asks(
                steps_of(Scenario::ChainIdDistinctPipelines),
                j,
                Call::AcceptsChainId(q, b),
                Expect::Answers(true),
            ) && #[trigger] asks(
                steps_of(Scenario::ChainIdDistinctPipelines),
                k,
                Call::AcceptsChainId(p, b),
                Expect::Answers(false),
            ),
{
    reveal_strlit("a");
    reveal_strlit("b");
    assert(PIPELINE_A@[0] != PIPELINE_B@[0]);
    let p = PIPELINE;
    assert(asks(steps_of(Scenario::ChainIdFirst), 2, Call::AcceptsChainId(p, CHAIN_A), Expect::Answers(true)));
    let steps = steps_of(Scenario::ChainIdMatching);
    assert(asks(steps, 2, Call::AcceptsChainId(p, CHAIN_A), Expect::Answers(true)));
    assert(asks(steps, 3, Call::AcceptsChainId(p, CHAIN_A), Expect::Answers(true)));
    let steps = steps_of(Scenario::ChainIdMismatching);
    assert(asks(steps, 2, Call::AcceptsChainId(p, CHAIN_A), Expect::Answers(true)));
    assert(asks(steps, 3, Call::AcceptsChainId(p, CHAIN_B), Expect::Answers(false)));
    assert(asks(steps, 4, Call::AcceptsChainId(p, CHAIN_A), Expect::Answers(true)));
    let steps = steps_of(Scenario::ChainIdDistinctPipelines);
    assert(asks(steps, 3, Call::AcceptsChainId(PIPELINE_A, CHAIN_A), Expect::Answers(true)));
    assert(asks(steps, 4, Call::AcceptsChainId(PIPELINE_B, CHAIN_B), Expect::Answers(true)));
    assert(asks(steps, 5, Call::AcceptsChainId(PIPELINE_A, CHAIN_B), Expect::Answers(false)));
}

/// What the scenarios of reader and pruner watermarks check: the reader is at the
/// checkpoint that was committed; each is read as it was set, and neither is set again or
/// back; and the pruner waits for almost the delay, or not at all where there is none.
pub proof fn law_reader_and_pruner_watermarks_are_checked()
    ensures
        exists|h: int, i: int, j: int, k: int, p: &'static str, w: CommitterWatermark, lo: u64|
            h < i < j < k && lo > 0 && #[trigger] asks(
                steps_of(Scenario::ReaderRoundtrip),
                h,
                Call::SetCommitterWatermark(p, w),
                Expect::Succeeds,
            ) && #[trigger] asks(
                steps_of(Scenario::ReaderRoundtrip),
                i,
                Call::ReaderWatermark(p),
                Expect::ReaderAt(w.checkpoint_hi_inclusive),
            ) && #[trigger] asks(
                steps_of(Scenario::ReaderRoundtrip),
                j,
                Call::SetReaderWatermark(p, lo),
                Expect::Answers(true),
            ) && #[trigger] asks(
                steps_of(Scenario::ReaderRoundtrip),
                k,
                Call::ReaderWatermark(p),
                Expect::ReaderLo(lo),
            ),
        exists|i: int, j: int, k: int, p: &'static str, lo: u64, before: u64|
            i < j < k && before < lo && #[trigger] asks(
                steps_of(Scenario::ReaderRejectsStale),
                i,
                Call::SetReaderWatermark(p, lo),
                Expect::Answers(true),
            ) && #[trigger] asks(
                steps_of(Scenario::ReaderRejectsStale),
                j,
                Call::SetReaderWatermark(p, lo),
                Expect::Answers(false),
            ) && #[trigger] asks(
                steps_of(Scenario::ReaderRejectsStale),
                k,
                Call::SetReaderWatermark(p, before),
                Expect::Answers(false),
            ),
        exists|i: int, p: &'static str, delay: u64, less: u64|
            0 < less < delay && #[trigger] asks(
                steps_of(Scenario::PrunerWaits),
                i,
                Call::PrunerWatermark(p, delay),
                Expect::PrunerWaits(less, delay),
            ),
        exists|i: int, p: &'static str| #[trigger]
            asks(steps_of(Scenario::PrunerSaturates), i, Call::PrunerWatermark(p, 0), Expect::PrunerReady),
        exists|i: int, j: int, p: &'static str, hi: u64|
            i < j && hi > 0 && #[trigger] asks(
                steps_of(Scenario::PrunerRoundtrip),
                i,
                Call::SetPrunerWatermark(p, hi),
                Expect::Answers(true),
            ) && #[trigger] asks(
                steps_of(Scenario::PrunerRoundtrip),
                j,
                Call::PrunerWatermark(p, 0),
                Expect::PrunerHi(hi),
            ),
        exists|i: int, j: int, k: int, p: &'static str, hi: u64, before: u64|
            i < j < k && before < hi && #[trigger] asks(
                steps_of(Scenario::PrunerRejectsStale),
                i,
                Call::SetPrunerWatermark(p, hi),
                Expect::Answers(true),
            ) && #[trigger] asks(
                steps_of(Scenario::PrunerRejectsStale),
                j,
                Call::SetPrunerWatermark(p, hi),
                Expect::Answers(false),
            ) && #[trigger] asks(
                steps_of(Scenario::PrunerRejectsStale),
                k,
                Call::SetPrunerWatermark(p, before),
                Expect::Answers(false),
            ),
{
    let p = PIPELINE;
    let w = blank(CHECKPOINT_HI);
    let steps = steps_of(Scenario::ReaderRoundtrip);
    assert(asks(steps, 2, Call::SetCommitterWatermark(p, w), Expect::Succeeds));
    assert(asks(steps, 3, Call::ReaderWatermark(p), Expect::ReaderAt(w.checkpoint_hi_inclusive)));
    assert(asks(steps, 4, Call::SetReaderWatermark(p, READER_LO), Expect::Answers(true)));
    assert(asks(steps, 5, Call::ReaderWatermark(p), Expect::ReaderLo(READER_LO)));
    let steps = steps_of(Scenario::ReaderRejectsStale);
    assert(asks(steps, 3, Call::SetReaderWatermark(p, READER_LO), Expect::Answers(true)));
    assert(asks(steps, 4, Call::SetReaderWatermark(p, READER_LO), Expect::Answers(false)));
    assert(asks(steps, 5, Call::SetReaderWatermark(p, READER_BEFORE), Expect::Answers(false)));
    assert(asks(
        steps_of(Scenario::PrunerWaits),
        3,
        Call::PrunerWatermark(p, ONE_HOUR_MS),
        Expect::PrunerWaits(ALMOST_ONE_HOUR_MS, ONE_HOUR_MS),
    ));
    assert(asks(steps_of(Scenario::PrunerSaturates), 3, Call::PrunerWatermark(p, 0), Expect::PrunerReady));
    let steps = steps_of(Scenario::PrunerRoundtrip);
    assert(asks(steps, 3, Call::SetPrunerWatermark(p, PRUNER_HI), Expect::Answers(true)));
    assert(asks(steps, 4, Call::PrunerWatermark(p, 0), Expect::PrunerHi(PRUNER_HI)));
    let steps = steps_of(Scenario::PrunerRejectsStale);
    assert(asks(steps, 3, Call::SetPrunerWatermark(p, PRUNER_HI), Expect::Answers(true)));
    assert(asks(steps, 4, Call::SetPrunerWatermark(p, PRUNER_HI), Expect::Answers(false)));
    assert(asks(steps, 5, Call::SetPrunerWatermark(p, PRUNER_BEFORE), Expect::Answers(false)));
}

} // verus!
