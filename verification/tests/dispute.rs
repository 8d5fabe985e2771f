//! Disputes, from bisection to judgment.
use cairn_runtime::canon::{self, Config};
use cairn_runtime::dispute::{
    Absent, AdjudicationError, Challenge, Claimant, DisputeError,
    Judgment, Party, Replay, Round, Step, Verdict, adjudicate, resolve,
};
use cairn_runtime::engine::machine::{Limits, Machine};
use cairn_runtime::engine::numeric::Trap;

/// A distinct hash per number, so test sequences are readable.
fn h(n: u64) -> cairn_runtime::merkle::Hash {
    *blake3::hash(&n.to_le_bytes()).as_bytes()
}

/// A party reading from a recorded sequence of states.
struct Recorded {
    roots: Vec<Option<cairn_runtime::merkle::Hash>>,
    absent_from: Option<u64>,
    queries: u32,
}

impl Recorded {
    /// A party whose execution diverges from the common prefix at `divergence`.
    fn diverging_at(length: u64, divergence: u64, tag: u64) -> Self {
        Self {
            roots: (0..=length)
                .map(|i| {
                    Some(if i < divergence {
                        h(i)
                    } else {
                        h(i * 1000 + tag)
                    })
                })
                .collect(),
            absent_from: None,
            queries: 0,
        }
    }

    /// A party that stops answering once asked about `step` or beyond.
    fn absent_from(mut self, step: u64) -> Self {
        self.absent_from = Some(step);
        self
    }
}

impl Claimant for Recorded {
    fn root_at(&mut self, step: Step) -> Result<Option<cairn_runtime::merkle::Hash>, Absent> {
        self.queries += 1;
        if self.absent_from.is_some_and(|from| step.get() >= from) {
            return Err(Absent);
        }
        Ok(self.roots.get(step.get() as usize).copied().flatten())
    }
}

#[test]
fn finds_the_first_divergent_instruction_wherever_it_is() {
    // Exhaustive over a small range rather than sampled: every divergence point in a
    // 64-instruction execution is checked, which is a proof for that size rather than
    // evidence.
    const LENGTH: u64 = 64;
    for divergence in 1..=LENGTH {
        let mut a = Recorded::diverging_at(LENGTH, divergence, 1);
        let mut b = Recorded::diverging_at(LENGTH, divergence, 2);
        let verdict = resolve(&mut a, &mut b, Step::new(LENGTH)).expect("should settle");
        assert_eq!(
            verdict.divergence,
            Step::new(divergence - 1),
            "the instruction running from step {} to {divergence} is the culprit",
            divergence - 1
        );
        assert_ne!(verdict.first_claim, verdict.second_claim);
    }
}

#[test]
fn the_verdict_carries_what_an_adjudicator_needs() {
    // The agreed pre-state and the two claimed post-states. An adjudicator executes one
    // instruction from the first and sees which of the other two it produces.
    let mut a = Recorded::diverging_at(32, 10, 1);
    let mut b = Recorded::diverging_at(32, 10, 2);
    let verdict = resolve(&mut a, &mut b, Step::new(32)).unwrap();

    assert_eq!(verdict.divergence, Step::new(9));
    assert_eq!(verdict.agreed_root, Some(h(9)));
    assert_eq!(verdict.first_claim, Some(h(10 * 1000 + 1)));
    assert_eq!(verdict.second_claim, Some(h(10 * 1000 + 2)));
}

#[test]
fn the_round_count_is_logarithmic() {
    // The whole economic argument. A trillion-instruction execution must settle in a few
    // dozen messages, not a trillion.
    for exponent in 1..=20u32 {
        let length = 1u64 << exponent;
        let mut a = Recorded::diverging_at(length, length, 1);
        let mut b = Recorded::diverging_at(length, length, 2);
        let verdict = resolve(&mut a, &mut b, Step::new(length)).unwrap();
        assert!(
            verdict.rounds <= exponent,
            "2^{exponent} instructions took {} rounds",
            verdict.rounds
        );
    }
}

#[test]
fn a_party_answers_a_logarithmic_number_of_queries() {
    // The cost that falls on the parties is bounded too, not just the coordinator's.
    let length = 1u64 << 16;
    let mut a = Recorded::diverging_at(length, 12_345, 1);
    let mut b = Recorded::diverging_at(length, 12_345, 2);
    resolve(&mut a, &mut b, Step::new(length)).unwrap();
    assert!(a.queries < 32, "first party answered {} queries", a.queries);
    assert!(
        b.queries < 32,
        "second party answered {} queries",
        b.queries
    );
}

#[test]
fn agreement_is_not_a_dispute() {
    let mut a = Recorded::diverging_at(32, 99, 1);
    let mut b = Recorded::diverging_at(32, 99, 1);
    assert_eq!(
        resolve(&mut a, &mut b, Step::new(32)).unwrap_err(),
        DisputeError::NoDisagreement
    );
}

#[test]
fn disagreeing_before_anything_runs_is_not_settleable() {
    // No instruction has executed, so none can be blamed. Two parties in this state are
    // not running the same work unit, which is a different problem.
    let mut a = Recorded::diverging_at(32, 0, 1);
    let mut b = Recorded::diverging_at(32, 0, 2);
    assert_eq!(
        resolve(&mut a, &mut b, Step::new(32)).unwrap_err(),
        DisputeError::DisagreeAtStart
    );
}

#[test]
fn an_empty_execution_has_no_instruction_to_blame() {
    assert_eq!(Challenge::open(Step::zero()), None);
    let mut a = Recorded::diverging_at(0, 0, 1);
    let mut b = Recorded::diverging_at(0, 0, 2);
    assert_eq!(
        resolve(&mut a, &mut b, Step::zero()).unwrap_err(),
        DisputeError::EmptyExecution
    );
}

#[test]
fn a_party_that_stops_answering_loses_by_default() {
    // Volunteers disconnect. The protocol has to name who went quiet so the coordinator
    // can apply the lighter penalty silence earns, rather than the one a proven lie does.
    let mut a = Recorded::diverging_at(64, 20, 1);
    let mut b = Recorded::diverging_at(64, 20, 2).absent_from(32);

    match resolve(&mut a, &mut b, Step::new(64)).unwrap_err() {
        DisputeError::Abandoned { by, at, .. } => {
            assert_eq!(by, Party::Second);
            assert!(at.get() >= 32);
        }
        other => panic!("expected abandonment, got {other:?}"),
    }
}

#[test]
fn executions_of_different_lengths_diverge_where_the_shorter_one_stopped() {
    // One party finished or trapped at step 40 while the other ran on. They agree
    // everywhere up to 40; the first step past it is where they part.
    let short: Vec<Option<cairn_runtime::merkle::Hash>> = (0..=64).map(|i| if i <= 40 { Some(h(i)) } else { None }).collect();
    let long: Vec<Option<cairn_runtime::merkle::Hash>> = (0..=64).map(|i| Some(h(i))).collect();

    let mut a = Recorded {
        roots: short,
        absent_from: None,
        queries: 0,
    };
    let mut b = Recorded {
        roots: long,
        absent_from: None,
        queries: 0,
    };

    let verdict = resolve(&mut a, &mut b, Step::new(64)).unwrap();
    assert_eq!(verdict.divergence, Step::new(40));
    assert_eq!(
        verdict.first_claim, None,
        "the shorter party has no state there"
    );
    assert_eq!(verdict.second_claim, Some(h(41)));
}

#[test]
fn the_state_machine_preserves_its_invariant() {
    // Whatever answers arrive, the parties always agree at the lower bound and disagree at
    // the upper one, and the gap always shrinks. Driven here with adversarial answers that
    // alternate, which no honest pair would produce.
    let mut challenge = Challenge::open(Step::new(1000)).unwrap();
    let mut alternate = false;
    let mut previous_gap = 1000u64;

    loop {
        let (lo, hi) = challenge.bounds();
        assert!(lo < hi, "bounds crossed: {lo:?} .. {hi:?}");
        let gap = hi.get() - lo.get();
        assert!(gap <= previous_gap, "the gap grew");
        previous_gap = gap;

        match challenge.round() {
            Round::Settled { divergence } => {
                assert_eq!(divergence, lo);
                assert_eq!(hi.get(), lo.get() + 1);
                break;
            }
            Round::Ask { step } => {
                assert!(lo < step && step < hi, "{step:?} outside {lo:?}..{hi:?}");
                alternate = !alternate;
                if alternate {
                    challenge.record(Some(h(1)), Some(h(1)));
                } else {
                    challenge.record(Some(h(1)), Some(h(2)));
                }
            }
        }
    }
    assert!(
        challenge.rounds() <= 10,
        "1000 steps took {} rounds",
        challenge.rounds()
    );
}

#[test]
fn recording_a_settled_challenge_does_nothing() {
    let mut challenge = Challenge::open(Step::new(1)).unwrap();
    assert!(matches!(challenge.round(), Round::Settled { .. }));
    let before = challenge.clone();
    challenge.record(Some(h(1)), Some(h(2)));
    assert_eq!(challenge, before);
}

// --- against real executions -------------------------------------------------------

/// Assemble, validate and instrument, as a coordinator would.
fn canonical(text: &str) -> Vec<u8> {
    let source = wat::parse_str(text).expect("module should assemble");
    cairn_runtime::validate::validate_submitted(&source, cairn_runtime::validate::Limits::default())
        .expect("module should be a valid Cairn workload");
    canon::instrument(&source, Config::default()).expect("instrumentation should succeed")
}

/// Reads its input into memory and writes it back out. Two runs on different inputs share
/// an identical prefix — the input is supplied by a host call and is not part of the
/// initial state — and part company at the instruction that copies it into memory.
const ECHO: &str = r#"
    (module
      (import "cairn" "input"  (func $input  (param i32 i32) (result i32)))
      (import "cairn" "output" (func $output (param i32 i32)))
      (memory (export "memory") 1 4)
      (func (export "cairn_run") (local $len i32)
        (local.set $len (call $input (i32.const 0) (i32.const 0)))
        (drop (call $input (i32.const 64) (local.get $len)))
        (call $output (i32.const 64) (local.get $len))))
"#;

#[test]
fn settles_a_dispute_between_two_real_executions() {
    let module = canonical(ECHO);
    let image = cairn_runtime::engine::image::decode(&module).unwrap();

    // Establish what each party actually did, so the challenge is opened over the longer
    // of the two the way a coordinator would.
    let run = |input: &[u8]| {
        let mut machine = Machine::new(&image, input.to_vec(), Limits::default()).unwrap();
        machine.run().unwrap()
    };
    let left = run(b"aaaaaaaa");
    let right = run(b"bbbbbbbb");
    assert_ne!(left.final_root, right.final_root, "the runs must differ");

    let length = Step::new(left.steps.max(right.steps));
    let mut first = Replay::new(&image, b"aaaaaaaa".to_vec(), Limits::default());
    let mut second = Replay::new(&image, b"bbbbbbbb".to_vec(), Limits::default());

    let verdict = resolve(&mut first, &mut second, length).expect("should settle");

    // The claim the protocol makes, checked directly against the executions rather than
    // taken on trust: they agree entering the instruction and disagree leaving it.
    assert_eq!(
        first.root_at(verdict.divergence).unwrap(),
        second.root_at(verdict.divergence).unwrap(),
        "the parties must agree at the step the verdict names"
    );
    assert_ne!(
        verdict.first_claim, verdict.second_claim,
        "and disagree one instruction later"
    );
    assert_eq!(
        verdict.agreed_root,
        first.root_at(verdict.divergence).unwrap()
    );
}

#[test]
fn the_divergence_is_the_first_one_not_merely_some_divergence() {
    let module = canonical(ECHO);
    let image = cairn_runtime::engine::image::decode(&module).unwrap();

    let mut first = Replay::new(&image, b"xyz".to_vec(), Limits::default());
    let mut second = Replay::new(&image, b"abc".to_vec(), Limits::default());

    let mut probe = Machine::new(&image, b"xyz".to_vec(), Limits::default()).unwrap();
    let length = Step::new(probe.run().unwrap().steps);

    let verdict = resolve(&mut first, &mut second, length).unwrap();

    for step in 0..=verdict.divergence.get() {
        let step = Step::new(step);
        assert_eq!(
            first.root_at(step).unwrap(),
            second.root_at(step).unwrap(),
            "the executions already differed at {step:?}, before the verdict's divergence"
        );
    }
}

#[test]
fn identical_executions_produce_no_dispute() {
    let module = canonical(ECHO);
    let image = cairn_runtime::engine::image::decode(&module).unwrap();

    let mut probe = Machine::new(&image, b"same".to_vec(), Limits::default()).unwrap();
    let length = Step::new(probe.run().unwrap().steps);

    let mut first = Replay::new(&image, b"same".to_vec(), Limits::default());
    let mut second = Replay::new(&image, b"same".to_vec(), Limits::default());

    assert_eq!(
        resolve(&mut first, &mut second, length).unwrap_err(),
        DisputeError::NoDisagreement
    );
}

#[test]
fn replay_reports_no_state_past_the_end_of_an_execution() {
    let module = canonical(ECHO);
    let image = cairn_runtime::engine::image::decode(&module).unwrap();

    let mut probe = Machine::new(&image, b"hi".to_vec(), Limits::default()).unwrap();
    let total = probe.run().unwrap().steps;

    let mut party = Replay::new(&image, b"hi".to_vec(), Limits::default());
    assert!(
        party.root_at(Step::new(total)).unwrap().is_some(),
        "the final state is reachable"
    );
    assert_eq!(
        party.root_at(Step::new(total + 1)).unwrap(),
        None,
        "there is nothing past the end"
    );
}

#[test]
fn replay_agrees_with_a_straight_run() {
    // The replay path and the run path must produce the same roots, or a party would
    // appear to contradict its own submitted trace.
    let module = canonical(ECHO);
    let image = cairn_runtime::engine::image::decode(&module).unwrap();

    let mut machine = Machine::new(&image, b"check".to_vec(), Limits::default()).unwrap();
    let trace = machine.run().unwrap();

    let mut party = Replay::new(&image, b"check".to_vec(), Limits::default());
    assert_eq!(party.root_at(Step::zero()).unwrap(), Some(trace.initial));
    assert_eq!(
        party.root_at(Step::new(trace.steps)).unwrap(),
        Some(trace.final_root)
    );
    for snapshot in &trace.snapshots {
        assert_eq!(
            party.root_at(Step::new(snapshot.step)).unwrap(),
            Some(snapshot.root),
            "replay disagreed with the committed snapshot at step {}",
            snapshot.step
        );
    }
}

#[test]
fn checkpointing_changes_speed_and_nothing_else() {
    // The property that makes checkpointing safe. A party's answers must not depend on how
    // much memory it chose to spend, or two honest workers with different budgets would
    // give different roots for the same question and the protocol would convict one of
    // them. Budget 0 replays from step 0 every time; the others resume from a checkpoint,
    // and 1 forces the halve-and-double path to run repeatedly.
    let module = canonical(ECHO);
    let image = cairn_runtime::engine::image::decode(&module).unwrap();

    let mut probe = Machine::new(&image, b"budget".to_vec(), Limits::default()).unwrap();
    let total = probe.run().unwrap().steps;

    let mut reference =
        Replay::with_checkpoint_budget(&image, b"budget".to_vec(), Limits::default(), 0);
    let expected: Vec<_> = (0..=total + 2)
        .map(|step| reference.root_at(Step::new(step)).unwrap())
        .collect();

    for budget in [1usize, 2, 3, 7, 32, 1024] {
        let mut party = Replay::with_checkpoint_budget(
            &image,
            b"budget".to_vec(),
            Limits::default(),
            budget,
        );
        for (step, want) in expected.iter().enumerate() {
            assert_eq!(
                party.root_at(Step::new(step as u64)).unwrap(),
                *want,
                "budget {budget} answered differently at step {step}"
            );
        }
    }
}

#[test]
fn checkpoints_stay_within_their_budget() {
    // Otherwise a long execution would hold one full machine state per interval and a
    // worker would run out of memory rather than run slowly.
    let module = canonical(ECHO);
    let image = cairn_runtime::engine::image::decode(&module).unwrap();

    for budget in [1usize, 2, 5, 16] {
        let mut party =
            Replay::with_checkpoint_budget(&image, b"hold".to_vec(), Limits::default(), budget);
        let _ = party.root_at(Step::new(1)).unwrap();
        assert!(
            party.checkpoints() <= budget,
            "budget {budget} kept {} checkpoints",
            party.checkpoints()
        );
    }
}

#[test]
fn a_resumed_answer_costs_less_than_replaying_from_zero() {
    // The point of the exercise. Counted in instructions stepped rather than in wall-clock,
    // so it says something reproducible about the algorithm rather than about this machine.
    let module = canonical(ECHO);
    let image = cairn_runtime::engine::image::decode(&module).unwrap();

    let mut probe = Machine::new(&image, b"cost".to_vec(), Limits::default()).unwrap();
    let total = probe.run().unwrap().steps;
    assert!(total > 8, "the fixture needs enough steps to bisect over");

    let mut party =
        Replay::with_checkpoint_budget(&image, b"cost".to_vec(), Limits::default(), 8);
    let _ = party.root_at(Step::new(total)).unwrap();

    // Every answer starts from a checkpoint no further back than one interval.
    let interval = party.interval();
    for step in 0..=total {
        let (from, _) = party.resume_at(step).unwrap();
        assert!(
            step - from < interval.max(1) * 2,
            "answering step {step} would replay from {from}, more than an interval back"
        );
    }
}

#[test]
fn a_query_at_step_zero_does_not_collapse_the_interval() {
    let module = canonical(ECHO);
    let image = cairn_runtime::engine::image::decode(&module).unwrap();

    let mut probe = Machine::new(&image, b"zero".to_vec(), Limits::default()).unwrap();
    let total = probe.run().unwrap().steps;

    let mut party =
        Replay::with_checkpoint_budget(&image, b"zero".to_vec(), Limits::default(), 4);
    let _ = party.root_at(Step::zero()).unwrap();
    let _ = party.root_at(Step::new(total)).unwrap();

    assert!(
        party.interval() > 1,
        "interval collapsed to {} after a query at step 0",
        party.interval()
    );
    assert!(party.checkpoints() <= 4);
}

const FOREVER: &str = r#"
    (module
      (memory (export "memory") 1 1)
      (func (export "cairn_run") (loop $again (br $again))))
"#;

#[test]
fn resume_points_are_spaced_by_the_budget_and_thinned() {
    let module = canonical(FOREVER);
    let image = cairn_runtime::engine::image::decode(&module).unwrap();
    let mut party = Replay::with_checkpoint_budget(&image, vec![], Limits::default(), 4);
    assert_eq!((party.checkpoints(), party.interval()), (0, 1));

    // A quarter of the way apart, and none at the step itself.
    assert!(party.root_at(Step::new(40_000)).unwrap().is_some());
    assert_eq!((party.checkpoints(), party.interval()), (3, 10_000));
    let from = |party: &Replay, step| party.resume_at(step).unwrap().0;
    assert_eq!(from(&party, 9_999), 0);
    assert_eq!(from(&party, 10_000), 10_000);
    assert_eq!(from(&party, 39_999), 30_000);

    // Nothing is recorded on a shorter way.
    assert!(party.root_at(Step::new(12_000)).unwrap().is_some());
    assert_eq!((party.checkpoints(), party.interval()), (3, 10_000));

    // Two more are one too many: every other one is dropped, and the interval doubles.
    assert!(party.root_at(Step::new(80_000)).unwrap().is_some());
    assert_eq!((party.checkpoints(), party.interval()), (3, 40_000));
    assert_eq!(from(&party, 29_999), 10_000);
    assert_eq!(from(&party, 69_999), 30_000);
    assert_eq!(from(&party, 80_000), 70_000);
}

#[test]
fn a_short_way_has_the_least_interval() {
    let module = canonical(FOREVER);
    let image = cairn_runtime::engine::image::decode(&module).unwrap();
    let mut party = Replay::with_checkpoint_budget(&image, vec![], Limits::default(), 4);
    assert!(party.root_at(Step::new(100)).unwrap().is_some());
    assert_eq!((party.checkpoints(), party.interval()), (0, 4_096));
}

// --- adjudication ------------------------------------------------------------------

/// Run a machine to `step` and capture a witness for the instruction that follows.
fn witness_at(
    image: &cairn_runtime::engine::image::Image,
    input: &[u8],
    step: Step,
) -> cairn_runtime::engine::machine::Witness {
    let mut machine = Machine::new(image, input.to_vec(), Limits::default()).unwrap();
    for _ in 0..step.get() {
        let _ = machine.step().unwrap();
    }
    machine.witness_for_next_step()
}

/// A party that reports the truth up to a point and corrupted roots after it.
struct Liar<'a> {
    honest: Replay<'a>,
    lies_from: u64,
}

impl Claimant for Liar<'_> {
    fn root_at(&mut self, step: Step) -> Result<Option<cairn_runtime::merkle::Hash>, Absent> {
        let truth = self.honest.root_at(step)?;
        if step.get() < self.lies_from {
            return Ok(truth);
        }
        Ok(truth.map(|mut root| {
            root[0] ^= 0xff;
            root
        }))
    }
}

#[test]
fn a_witness_reproduces_what_the_original_machine_does_next() {
    let module = canonical(ECHO);
    let image = cairn_runtime::engine::image::decode(&module).unwrap();
    let input = b"witness me";

    let mut original = Machine::new(&image, input.to_vec(), Limits::default()).unwrap();
    let total = original.clone().run().unwrap().steps;
    assert!(total > 10, "the test module should run for a while");

    for step in 0..total {
        let witness = original.witness_for_next_step();

        let mut expected = original.clone();
        let _ = expected.step().unwrap();
        let expected_root = expected.commit().root();

        let mut rebuilt = Machine::restore(&image, &witness, input.to_vec(), Limits::default())
            .unwrap_or_else(|e| panic!("restore failed at step {step}: {e:?}"));
        let _ = rebuilt
            .step()
            .unwrap_or_else(|e| panic!("step failed at step {step}: {e:?}"));

        assert_eq!(
            rebuilt.commit().root(),
            expected_root,
            "a witness at step {step} did not reproduce the next state"
        );

        let _ = original.step().unwrap();
    }
}

#[test]
fn a_witness_carries_only_the_pages_its_instruction_needs() {
    // The claim that makes adjudication affordable. A workload with a large memory must
    // still produce witnesses carrying a couple of pages, because one instruction can only
    // reach so far.
    let module = canonical(
        r#"(module
             (import "cairn" "output" (func $output (param i32 i32)))
             (memory (export "memory") 64 512)
             (func (export "cairn_run") (local $i i32)
               (block $done
                 (loop $again
                   (br_if $done (i32.ge_u (local.get $i) (i32.const 2000)))
                   (i32.store (local.get $i) (local.get $i))
                   (local.set $i (i32.add (local.get $i) (i32.const 4)))
                   (br $again)))
               (call $output (i32.const 0) (i32.const 8))))"#,
    );
    let image = cairn_runtime::engine::image::decode(&module).unwrap();

    let mut machine = Machine::new(&image, Vec::new(), Limits::default()).unwrap();
    let mut widest = 0;
    for _ in 0..400 {
        widest = widest.max(machine.witness_for_next_step().pages.len());
        if matches!(
            machine.step().unwrap(),
            cairn_runtime::engine::machine::Progress::Finished
        ) {
            break;
        }
    }
    assert!(
        widest <= 2,
        "an instruction needed {widest} pages; a store spans at most two"
    );
}

#[test]
fn adjudication_convicts_the_party_that_lied() {
    let module = canonical(ECHO);
    let image = cairn_runtime::engine::image::decode(&module).unwrap();
    let input = b"convict";

    let mut probe = Machine::new(&image, input.to_vec(), Limits::default()).unwrap();
    let length = Step::new(probe.run().unwrap().steps);

    let mut honest = Replay::new(&image, input.to_vec(), Limits::default());
    let mut liar = Liar {
        honest: Replay::new(&image, input.to_vec(), Limits::default()),
        lies_from: 7,
    };

    let verdict = resolve(&mut honest, &mut liar, length).expect("should settle");
    assert_eq!(
        verdict.divergence,
        Step::new(6),
        "the instruction from step 6 to 7 is where the lie starts"
    );

    let witness = witness_at(&image, input, verdict.divergence);
    let judgment = adjudicate(&image, &verdict, &witness, input, Limits::default()).unwrap();
    assert_eq!(
        judgment,
        Judgment::Guilty {
            liar: Party::Second
        }
    );
}

#[test]
fn adjudication_convicts_whichever_side_lies() {
    // Order must not matter. Swapping the parties must swap the verdict, not preserve it.
    let module = canonical(ECHO);
    let image = cairn_runtime::engine::image::decode(&module).unwrap();
    let input = b"either way";

    let mut probe = Machine::new(&image, input.to_vec(), Limits::default()).unwrap();
    let length = Step::new(probe.run().unwrap().steps);

    let mut liar = Liar {
        honest: Replay::new(&image, input.to_vec(), Limits::default()),
        lies_from: 9,
    };
    let mut honest = Replay::new(&image, input.to_vec(), Limits::default());

    let verdict = resolve(&mut liar, &mut honest, length).unwrap();
    let witness = witness_at(&image, input, verdict.divergence);
    assert_eq!(
        adjudicate(&image, &verdict, &witness, input, Limits::default()).unwrap(),
        Judgment::Guilty { liar: Party::First }
    );
}

#[test]
fn a_witness_from_the_wrong_state_is_refused() {
    // The check that makes a witness trustworthy: it must reconstruct the root bisection
    // already established. A witness captured one instruction later describes a real
    // state, just not the agreed one.
    let module = canonical(ECHO);
    let image = cairn_runtime::engine::image::decode(&module).unwrap();
    let input = b"wrong state";

    let mut probe = Machine::new(&image, input.to_vec(), Limits::default()).unwrap();
    let length = Step::new(probe.run().unwrap().steps);

    let mut honest = Replay::new(&image, input.to_vec(), Limits::default());
    let mut liar = Liar {
        honest: Replay::new(&image, input.to_vec(), Limits::default()),
        lies_from: 8,
    };
    let verdict = resolve(&mut honest, &mut liar, length).unwrap();

    let wrong = witness_at(&image, input, Step::new(verdict.divergence.get() + 1));
    assert_eq!(
        adjudicate(&image, &verdict, &wrong, input, Limits::default()).unwrap_err(),
        AdjudicationError::WitnessDoesNotMatchAgreedState
    );
}

#[test]
fn tampering_with_a_witness_is_refused() {
    let module = canonical(ECHO);
    let image = cairn_runtime::engine::image::decode(&module).unwrap();
    let input = b"tamper";

    let mut probe = Machine::new(&image, input.to_vec(), Limits::default()).unwrap();
    let length = Step::new(probe.run().unwrap().steps);

    let mut honest = Replay::new(&image, input.to_vec(), Limits::default());
    let mut liar = Liar {
        honest: Replay::new(&image, input.to_vec(), Limits::default()),
        lies_from: 10,
    };
    let verdict = resolve(&mut honest, &mut liar, length).unwrap();
    let genuine = witness_at(&image, input, verdict.divergence);

    // Altering the small state changes the commitment, so it no longer matches the agreed
    // root and never reaches the machine.
    let mut altered_globals = genuine.clone();
    altered_globals
        .operand_stack
        .push(cairn_runtime::state::Value::I32(0xDEAD));
    assert_eq!(
        adjudicate(&image, &verdict, &altered_globals, input, Limits::default()).unwrap_err(),
        AdjudicationError::WitnessDoesNotMatchAgreedState
    );

    // Altering a page's bytes breaks its proof, which is caught before the commitment is
    // even reconstructed.
    if let Some(page) = genuine.pages.first() {
        let mut altered_page = genuine.clone();
        altered_page.pages[0].bytes[0] ^= 0xff;
        let error =
            adjudicate(&image, &verdict, &altered_page, input, Limits::default()).unwrap_err();
        assert_eq!(
            error,
            AdjudicationError::UnusableWitness(
                cairn_runtime::engine::machine::WitnessError::BadPageProof { page: page.index }
            )
        );
    }
}

#[test]
fn a_witness_missing_a_page_the_instruction_needs_is_refused() {
    // Dropping a page is the subtle attack: every remaining proof still verifies, so the
    // failure has to surface when the instruction reaches for what is not there.
    let module = canonical(
        r#"(module
             (import "cairn" "output" (func $output (param i32 i32)))
             (memory (export "memory") 2 4)
             (func (export "cairn_run")
               (i32.store (i32.const 100) (i32.const 42))
               (call $output (i32.const 100) (i32.const 4))))"#,
    );
    let image = cairn_runtime::engine::image::decode(&module).unwrap();

    // Walk to the store, whose witness carries the page it writes.
    let mut machine = Machine::new(&image, Vec::new(), Limits::default()).unwrap();
    let mut found = None;
    for step in 0..200u64 {
        let witness = machine.witness_for_next_step();
        if !witness.pages.is_empty() {
            found = Some((Step::new(step), witness));
            break;
        }
        if matches!(
            machine.step().unwrap(),
            cairn_runtime::engine::machine::Progress::Finished
        ) {
            break;
        }
    }
    let (step, full) = found.expect("some instruction must touch memory");

    let mut stripped = full.clone();
    stripped.pages.clear();

    // The stripped witness still describes the agreed state — the memory root is carried
    // separately — so it passes the commitment check and fails at execution.
    let mut before = Machine::new(&image, Vec::new(), Limits::default()).unwrap();
    for _ in 0..step.get() {
        let _ = before.step().unwrap();
    }
    let agreed = before.commit().root();
    assert_eq!(stripped.commitment().root(), agreed);

    let verdict = Verdict {
        divergence: step,
        agreed_root: Some(agreed),
        first_claim: Some([1; 32]),
        second_claim: Some([2; 32]),
        rounds: 0,
    };

    // It gets as far as executing, and fails there: reaching for a page nobody supplied
    // must be an explicit failure and never a read of zeroes.
    match adjudicate(&image, &verdict, &stripped, &[], Limits::default()).unwrap_err() {
        AdjudicationError::ExecutionFailed(Trap::WitnessIncomplete { .. }) => {}
        other => panic!("expected the missing page to be caught, got {other:?}"),
    }
}

#[test]
fn adjudication_reports_when_both_parties_are_wrong() {
    let module = canonical(ECHO);
    let image = cairn_runtime::engine::image::decode(&module).unwrap();
    let input = b"both";

    let mut before = Machine::new(&image, input.to_vec(), Limits::default()).unwrap();
    for _ in 0..5 {
        let _ = before.step().unwrap();
    }
    let agreed = before.commit().root();
    let witness = witness_at(&image, input, Step::new(5));

    let verdict = Verdict {
        divergence: Step::new(5),
        agreed_root: Some(agreed),
        first_claim: Some([7; 32]),
        second_claim: Some([9; 32]),
        rounds: 1,
    };

    match adjudicate(&image, &verdict, &witness, input, Limits::default()).unwrap() {
        Judgment::BothWrong { actual } => assert!(actual.is_some()),
        other => panic!("expected both wrong, got {other:?}"),
    }
}

#[test]
fn every_adjudication_error_renders_a_message() {
    let samples = [
        AdjudicationError::WitnessDoesNotMatchAgreedState,
        AdjudicationError::UnusableWitness(cairn_runtime::engine::machine::WitnessError::NoFrames),
        AdjudicationError::ExecutionFailed(Trap::Unreachable),
        AdjudicationError::NoAgreedState,
    ];
    for sample in samples {
        assert!(
            !sample.to_string().is_empty(),
            "empty message for {sample:?}"
        );
    }
}

#[test]
fn dispute_every_error_renders_a_message() {
    let samples = [
        DisputeError::NoDisagreement,
        DisputeError::DisagreeAtStart,
        DisputeError::EmptyExecution,
        DisputeError::Abandoned {
            by: Party::First,
            at: Step::new(1),
            rounds: 2,
        },
        DisputeError::DidNotConverge,
    ];
    for sample in samples {
        assert!(
            !sample.to_string().is_empty(),
            "empty message for {sample:?}"
        );
    }
}
