//! The scenarios that a store has to meet.

use std::collections::HashMap;

use sui_kvstore::bigtable::store::watermark::CommitterWatermark;
use sui_kvstore::bigtable::store::watermark::InitWatermark;
use sui_kvstore::bigtable::store::watermark::PrunerWatermark;
use sui_kvstore::bigtable::store::watermark::ReaderWatermark;
use sui_kvstore::store_suite::meets;
use sui_kvstore::store_suite::scenarios;
use sui_kvstore::store_suite::Call;
use sui_kvstore::store_suite::Expect;
use sui_kvstore::store_suite::Reply;
use sui_kvstore::store_suite::Step;

fn watermark(checkpoint_hi_inclusive: u64) -> CommitterWatermark {
    CommitterWatermark {
        epoch_hi_inclusive: 7,
        checkpoint_hi_inclusive,
        tx_hi: 42,
        timestamp_ms_hi_inclusive: 99,
    }
}

/// What is wrong with a store.
#[derive(Clone, Copy, PartialEq)]
enum Fault {
    Nothing,
    Forgetful,
    Regressing,
    AnyChain,
    SharedChain,
    StaleReader,
    StalePruner,
    Impatient,
    NoRollback,
}

#[derive(Clone, Default)]
struct Pipeline {
    start: Option<u64>,
    committer: Option<CommitterWatermark>,
    chain_id: Option<u8>,
    reader_lo: u64,
    pruner_hi: u64,
}

struct MemoryStore {
    fault: Fault,
    pipelines: HashMap<&'static str, Pipeline>,
}

impl MemoryStore {
    fn new(fault: Fault) -> Self {
        MemoryStore {
            fault,
            pipelines: HashMap::new(),
        }
    }

    fn call(&mut self, call: Call) -> Reply {
        let fault = self.fault;
        match call {
            Call::Connect => Reply::Connected,
            Call::InitWatermark(name, start) => {
                let known = self.pipelines.entry(name).or_insert(Pipeline {
                    start,
                    ..Pipeline::default()
                });
                let known_start = known.committer.map(|w| w.checkpoint_hi_inclusive).or(known.start);
                Reply::Init(Some(InitWatermark {
                    checkpoint_hi_inclusive: if fault == Fault::Forgetful {
                        start
                    } else {
                        known_start
                    },
                    reader_lo: None,
                }))
            }
            Call::CommitterWatermark(name) => Reply::Committer(self.pipelines[name].committer),
            Call::SetCommitterWatermark(name, watermark) => {
                let known = self.pipelines.get_mut(name).unwrap();
                let advances = known
                    .committer
                    .is_none_or(|w| watermark.checkpoint_hi_inclusive > w.checkpoint_hi_inclusive);
                if advances || fault == Fault::Regressing {
                    known.committer = Some(watermark);
                    Reply::Answer(true)
                } else {
                    Reply::Answer(false)
                }
            }
            Call::AcceptsChainId(name, chain_id) => {
                if fault == Fault::AnyChain {
                    return Reply::Answer(true);
                }
                let name = if fault == Fault::SharedChain { "a" } else { name };
                let known = self.pipelines.entry(name).or_default();
                Reply::Answer(*known.chain_id.get_or_insert(chain_id) == chain_id)
            }
            Call::ReaderWatermark(name) => {
                let known = &self.pipelines[name];
                Reply::Reader(known.committer.map(|w| ReaderWatermark {
                    checkpoint_hi_inclusive: w.checkpoint_hi_inclusive,
                    reader_lo: known.reader_lo,
                }))
            }
            Call::SetReaderWatermark(name, reader_lo) => {
                let known = self.pipelines.get_mut(name).unwrap();
                let advances = reader_lo > known.reader_lo || fault == Fault::StaleReader;
                if advances {
                    known.reader_lo = reader_lo;
                }
                Reply::Answer(advances)
            }
            Call::PrunerWatermark(name, delay_ms) => Reply::Pruner(Some(PrunerWatermark {
                wait_for_ms: if fault == Fault::Impatient {
                    0
                } else {
                    delay_ms as i64
                },
                pruner_hi: self.pipelines[name].pruner_hi,
            })),
            Call::SetPrunerWatermark(name, pruner_hi) => {
                let known = self.pipelines.get_mut(name).unwrap();
                let advances = pruner_hi > known.pruner_hi || fault == Fault::StalePruner;
                if advances {
                    known.pruner_hi = pruner_hi;
                }
                Reply::Answer(advances)
            }
            Call::FailedTransaction(name, watermark) => {
                if fault == Fault::NoRollback {
                    self.pipelines.get_mut(name).unwrap().committer = Some(watermark);
                }
                Reply::Failed
            }
        }
    }

    fn passes(fault: Fault, steps: Vec<Step>) -> bool {
        let mut store = MemoryStore::new(fault);
        steps
            .iter()
            .all(|step| meets(&store.call(step.call), &step.expected))
    }
}

fn all_scenarios() -> Vec<Vec<Step>> {
    vec![
        scenarios::init_watermark_fresh_without_checkpoint(),
        scenarios::init_watermark_fresh_with_checkpoint(),
        scenarios::init_watermark_returns_existing_on_conflict(),
        scenarios::committer_watermark_initial_is_none(),
        scenarios::committer_watermark_roundtrip(),
        scenarios::set_committer_watermark_advances(),
        scenarios::set_committer_watermark_rejects_regression(),
        scenarios::accepts_chain_id_first_call_writes_and_accepts(),
        scenarios::accepts_chain_id_matching_accepts(),
        scenarios::accepts_chain_id_mismatching_rejects(),
        scenarios::accepts_chain_id_distinct_pipelines(),
        scenarios::reader_watermark_roundtrip(),
        scenarios::pruner_watermark_wait_for_ms(),
        scenarios::pruner_watermark_saturates_when_ready(),
        scenarios::set_pruner_watermark_roundtrip(),
        scenarios::set_reader_watermark_rejects_stale(),
        scenarios::set_pruner_watermark_rejects_stale(),
        scenarios::transaction_rolls_back_on_error(),
    ]
}

#[test]
fn a_sound_store_meets_every_scenario() {
    for steps in all_scenarios() {
        assert!(steps.len() >= 2);
        assert!(matches!(steps[0].call, Call::Connect));
        assert!(MemoryStore::passes(Fault::Nothing, steps));
    }
}

#[test]
fn a_faulty_store_fails_its_scenario() {
    assert!(!MemoryStore::passes(
        Fault::Forgetful,
        scenarios::init_watermark_returns_existing_on_conflict()
    ));
    assert!(!MemoryStore::passes(
        Fault::Regressing,
        scenarios::set_committer_watermark_rejects_regression()
    ));
    assert!(!MemoryStore::passes(
        Fault::AnyChain,
        scenarios::accepts_chain_id_mismatching_rejects()
    ));
    assert!(!MemoryStore::passes(
        Fault::SharedChain,
        scenarios::accepts_chain_id_distinct_pipelines()
    ));
    assert!(!MemoryStore::passes(
        Fault::StaleReader,
        scenarios::set_reader_watermark_rejects_stale()
    ));
    assert!(!MemoryStore::passes(
        Fault::StalePruner,
        scenarios::set_pruner_watermark_rejects_stale()
    ));
    assert!(!MemoryStore::passes(
        Fault::Impatient,
        scenarios::pruner_watermark_wait_for_ms()
    ));
    assert!(!MemoryStore::passes(
        Fault::NoRollback,
        scenarios::transaction_rolls_back_on_error()
    ));
}

#[test]
fn replies_are_held_to_what_is_expected() {
    let failed = Reply::Failed;
    assert!(meets(&Reply::Connected, &Expect::Succeeds));
    assert!(!meets(&failed, &Expect::Succeeds));
    assert!(meets(&failed, &Expect::Fails));
    assert!(!meets(&Reply::Answer(false), &Expect::Fails));
    assert!(meets(&Reply::Answer(true), &Expect::Answers(true)));
    assert!(!meets(&Reply::Answer(true), &Expect::Answers(false)));

    let start = Reply::Init(Some(InitWatermark {
        checkpoint_hi_inclusive: Some(200),
        reader_lo: None,
    }));
    assert!(meets(&start, &Expect::StartsAt(Some(200))));
    assert!(!meets(&start, &Expect::StartsAt(Some(0))));
    assert!(!meets(&start, &Expect::StartsAt(None)));
    assert!(!meets(&Reply::Init(None), &Expect::StartsAt(None)));

    let committer = Reply::Committer(Some(watermark(200)));
    assert!(meets(&Reply::Committer(None), &Expect::NoCommitter));
    assert!(!meets(&committer, &Expect::NoCommitter));
    assert!(meets(&committer, &Expect::Committer(watermark(200))));
    assert!(!meets(&committer, &Expect::Committer(watermark(100))));
    assert!(meets(&committer, &Expect::CommitterAt(200)));
    assert!(!meets(&committer, &Expect::CommitterAt(100)));

    let reader = Reply::Reader(Some(ReaderWatermark {
        checkpoint_hi_inclusive: 200,
        reader_lo: 123,
    }));
    assert!(meets(&reader, &Expect::ReaderAt(200)));
    assert!(!meets(&reader, &Expect::ReaderAt(123)));
    assert!(meets(&reader, &Expect::ReaderLo(123)));
    assert!(!meets(&reader, &Expect::ReaderLo(200)));
    assert!(!meets(&Reply::Reader(None), &Expect::ReaderLo(0)));
}

#[test]
fn a_pruner_waits_within_bounds() {
    let waits = |wait_for_ms: i64| {
        Reply::Pruner(Some(PrunerWatermark {
            wait_for_ms,
            pruner_hi: 77,
        }))
    };
    let expected = Expect::PrunerWaits(3_500_000, 3_600_000);
    assert!(!meets(&waits(3_500_000), &expected));
    assert!(meets(&waits(3_500_001), &expected));
    assert!(meets(&waits(3_600_000), &expected));
    assert!(!meets(&waits(3_600_001), &expected));
    assert!(!meets(&waits(-1), &expected));
    assert!(meets(&waits(0), &Expect::PrunerReady));
    assert!(meets(&waits(-1), &Expect::PrunerReady));
    assert!(!meets(&waits(1), &Expect::PrunerReady));
    assert!(meets(&waits(0), &Expect::PrunerHi(77)));
    assert!(!meets(&waits(0), &Expect::PrunerHi(76)));
    assert!(!meets(&Reply::Pruner(None), &Expect::PrunerReady));
}

#[test]
fn scenarios_make_the_calls_they_are_named_for() {
    let steps = scenarios::transaction_rolls_back_on_error();
    assert_eq!(steps.len(), 6);
    assert!(matches!(
        steps[3].call,
        Call::FailedTransaction("pipeline", advanced) if advanced == watermark(201)
    ));
    assert!(matches!(steps[3].expected, Expect::Fails));
    assert!(matches!(steps[5].expected, Expect::CommitterAt(200)));

    let steps = scenarios::set_committer_watermark_advances();
    assert!(matches!(
        steps[2].call,
        Call::SetCommitterWatermark("pipeline", lower) if lower == watermark(100)
    ));

    let steps = scenarios::pruner_watermark_wait_for_ms();
    assert!(matches!(steps[3].call, Call::PrunerWatermark("pipeline", 3_600_000)));
    assert!(matches!(
        steps[3].expected,
        Expect::PrunerWaits(3_500_000, 3_600_000)
    ));
}
