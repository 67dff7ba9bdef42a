//! A store that meets the scenarios.

use vstd::prelude::*;

use crate::bigtable::store::watermark::CommitterWatermark;
use crate::bigtable::store::watermark::InitWatermark;
use crate::bigtable::store::watermark::PrunerWatermark;
use crate::bigtable::store::watermark::ReaderWatermark;
use crate::store_suite;
use crate::store_suite::scenarios;
use crate::store_suite::scenarios::Scenario;
use crate::store_suite::Call;
use crate::store_suite::Reply;
use crate::store_suite::Step;

verus! {

/// What a store that meets the scenarios knows of a pipeline.
pub struct PipelineModel {
    /// The checkpoint that the pipeline was started at.
    pub start: Option<u64>,
    pub committer: Option<CommitterWatermark>,
    pub chain_id: Option<u8>,
    pub reader_lo: u64,
    pub pruner_hi: u64,
}

/// What such a store replies to a call, and what it knows then. No time passes
/// between two calls.
pub open spec fn react(
    model: Map<Seq<char>, PipelineModel>,
    call: Call,
) -> (Map<Seq<char>, PipelineModel>, Reply) {
    match call {
        Call::Connect => (model, Reply::Connected),
        Call::InitWatermark(pipeline, checkpoint_hi_inclusive) => if model.contains_key(pipeline@) {
            let known = model[pipeline@];
            let start = match known.committer {
                Some(watermark) => Some(watermark.checkpoint_hi_inclusive),
                None => known.start,
            };
            (
                model,
                Reply::Init(Some(InitWatermark { checkpoint_hi_inclusive: start, reader_lo: None })),
            )
        } else {
            (
                model.insert(
                    pipeline@,
                    PipelineModel {
                        start: checkpoint_hi_inclusive,
                        committer: None,
                        chain_id: None,
                        reader_lo: 0,
                        pruner_hi: 0,
                    },
                ),
                Reply::Init(Some(InitWatermark { checkpoint_hi_inclusive, reader_lo: None })),
            )
        },
        Call::CommitterWatermark(pipeline) => (
            model,
            Reply::Committer(model[pipeline@].committer),
        ),
        Call::SetCommitterWatermark(pipeline, watermark) => {
            let known = model[pipeline@];
            let advances = match known.committer {
                Some(stored) => watermark.checkpoint_hi_inclusive > stored.checkpoint_hi_inclusive,
                None => true,
            };
            if advances {
                (
                    model.insert(pipeline@, PipelineModel { committer: Some(watermark), ..known }),
                    Reply::Answer(true),
                )
            } else {
                (model, Reply::Answer(false))
            }
        },
        Call::AcceptsChainId(pipeline, chain_id) => {
            let known = model[pipeline@];
            match known.chain_id {
                Some(stored) => (model, Reply::Answer(stored == chain_id)),
                None => (
                    model.insert(pipeline@, PipelineModel { chain_id: Some(chain_id), ..known }),
                    Reply::Answer(true),
                ),
            }
        },
        Call::ReaderWatermark(pipeline) => {
            let known = model[pipeline@];
            (
                model,
                Reply::Reader(
                    match known.committer {
                        Some(watermark) => Some(
                            ReaderWatermark {
                                checkpoint_hi_inclusive: watermark.checkpoint_hi_inclusive,
                                reader_lo: known.reader_lo,
                            },
                        ),
                        None => None,
                    },
                ),
            )
        },
        Call::SetReaderWatermark(pipeline, reader_lo) => {
            let known = model[pipeline@];
            if reader_lo > known.reader_lo {
                (
                    model.insert(pipeline@, PipelineModel { reader_lo, ..known }),
                    Reply::Answer(true),
                )
            } else {
                (model, Reply::Answer(false))
            }
        },
        Call::PrunerWatermark(pipeline, delay_ms) => (
            model,
            Reply::Pruner(
                Some(
                    PrunerWatermark {
                        wait_for_ms: delay_ms as i64,
                        pruner_hi: model[pipeline@].pruner_hi,
                    },
                ),
            ),
        ),
        Call::SetPrunerWatermark(pipeline, pruner_hi) => {
            let known = model[pipeline@];
            if pruner_hi > known.pruner_hi {
                (
                    model.insert(pipeline@, PipelineModel { pruner_hi, ..known }),
                    Reply::Answer(true),
                )
            } else {
                (model, Reply::Answer(false))
            }
        },
        Call::FailedTransaction(..) => (model, Reply::Failed),
    }
}

/// A store that knows `model` meets every step from the `i`-th on.
pub open spec fn passes_from(model: Map<Seq<char>, PipelineModel>, steps: Seq<Step>, i: nat) -> bool
    decreases steps.len() - i,
{
    if i >= steps.len() {
        true
    } else {
        let (next, reply) = react(model, steps[i as int].call);
        &&& store_suite::is_met(reply, steps[i as int].expected)
        &&& passes_from(next, steps, i + 1)
    }
}

proof fn lemma_watermark_scenarios(scenario: Scenario)
    requires
        scenario is InitFreshWithoutCheckpoint || scenario is InitFreshWithCheckpoint
            || scenario is InitReturnsExisting || scenario is CommitterInitialIsNone
            || scenario is CommitterRoundtrip || scenario is CommitterAdvances
            || scenario is CommitterRejectsRegression || scenario is TransactionRollsBack,
    ensures
        passes_from(Map::empty(), scenarios::steps_of(scenario), 0),
{
    reveal_with_fuel(passes_from, 8);
}

proof fn lemma_chain_id_scenarios(scenario: Scenario)
    requires
        scenario is ChainIdFirst || scenario is ChainIdMatching || scenario is ChainIdMismatching
            || scenario is ChainIdDistinctPipelines,
    ensures
        passes_from(Map::empty(), scenarios::steps_of(scenario), 0),
{
    reveal_with_fuel(passes_from, 8);
    reveal_strlit("a");
    reveal_strlit("b");
    assert("a"@[0] != "b"@[0]);
}

/// After the bootstrap, the pipeline is known.
proof fn lemma_bootstrap(steps: Seq<Step>) -> (model: Map<Seq<char>, PipelineModel>)
    requires
        steps.len() >= 3,
        steps.take(3) == scenarios::bootstrap(scenarios::CHECKPOINT_HI),
    ensures
        passes_from(Map::empty(), steps, 0) == passes_from(model, steps, 3),
        model.contains_key(scenarios::PIPELINE@),
        model[scenarios::PIPELINE@] == (PipelineModel {
            start: None,
            committer: Some(scenarios::blank(scenarios::CHECKPOINT_HI)),
            chain_id: None,
            reader_lo: 0,
            pruner_hi: 0,
        }),
{
    let first = steps.take(3);
    assert(steps[0] == first[0] && steps[1] == first[1] && steps[2] == first[2]);
    let started = react(Map::empty(), steps[1].call).0;
    let model = react(started, steps[2].call).0;
    assert(passes_from(Map::empty(), steps, 0) == passes_from(Map::empty(), steps, 1));
    assert(passes_from(Map::empty(), steps, 1) == passes_from(started, steps, 2));
    assert(passes_from(started, steps, 2) == passes_from(model, steps, 3));
    model
}

proof fn lemma_reader_and_pruner_scenarios(scenario: Scenario)
    requires
        scenario is ReaderRoundtrip || scenario is PrunerWaits || scenario is PrunerSaturates
            || scenario is PrunerRoundtrip || scenario is ReaderRejectsStale
            || scenario is PrunerRejectsStale,
    ensures
        passes_from(Map::empty(), scenarios::steps_of(scenario), 0),
{
    let steps = scenarios::steps_of(scenario);
    assert(steps.take(3) =~= scenarios::bootstrap(scenarios::CHECKPOINT_HI));
    let model = lemma_bootstrap(steps);
    let fourth = react(model, steps[3].call).0;
    let fifth = react(fourth, steps[4].call).0;
    let sixth = react(fifth, steps[5].call).0;
    assert(passes_from(sixth, steps, 6));
    assert(passes_from(fifth, steps, 5));
    assert(passes_from(fourth, steps, 4));
    assert(passes_from(model, steps, 3));
}

/// The scenarios do not ask for the impossible: there is a store that meets each.
pub proof fn law_every_scenario_can_be_met(scenario: Scenario)
    ensures
        passes_from(Map::empty(), scenarios::steps_of(scenario), 0),
{
    match scenario {
        Scenario::ChainIdFirst | Scenario::ChainIdMatching | Scenario::ChainIdMismatching
        | Scenario::ChainIdDistinctPipelines => {
            lemma_chain_id_scenarios(scenario);
        },
        Scenario::ReaderRoundtrip | Scenario::PrunerWaits | Scenario::PrunerSaturates
        | Scenario::PrunerRoundtrip | Scenario::ReaderRejectsStale | Scenario::PrunerRejectsStale => {
            lemma_reader_and_pruner_scenarios(scenario);
        },
        _ => {
            lemma_watermark_scenarios(scenario);
        },
    }
}

} // verus!
