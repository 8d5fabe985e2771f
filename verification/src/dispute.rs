//! Settling a disagreement without recomputing the work.
//!
//! Two volunteers return different answers for the same work unit. One of them is wrong, and the
//! coordinator has to find out which, cheaply.
//!
//! The parties binary-search their own executions. Each round the coordinator names a step and
//! both must commit to the state they claim to have been in there. Agreement moves the lower
//! bound up; disagreement moves the upper bound down. After `log2(n)` rounds the bounds are
//! adjacent, and the instruction between them is one whose execution the two disagree about. The
//! coordinator then executes that single instruction and learns who lied.
//!
//! # Steps, not fuel
//!
//! Positions are step indices: a step is one instruction, so step *n* names exactly one state.
//! Fuel is charged per basic block, so many distinct states share a fuel value.
use crate::engine::execution::{
    fits_module, frame_fits, frame_placed, frames_fit, frames_placed, is_short, label_fits, label_fits_in,
    label_placed_in, law_a_step_is_one_instruction, law_every_state_reached_is_running, lists,
    restored, started, touches_committed,
};
use crate::engine::image::{Function, Image};
use crate::engine::machine::{Limits, Machine, Progress, Witness, WitnessError};
use crate::engine::memory::addressable;
use crate::engine::numeric::{Trap, TrapView};
use crate::engine::semantics::{FrameView, MachineView};
use crate::engine::simulation::{
    countable, hashed, law_a_rebuilt_machine_follows, law_a_restored_machine_is_a_twin,
    law_a_witness_commits_to_its_state, law_an_honest_witness_suffices,
    law_the_root_binds_a_witness, law_twins_have_one_root,
};
use crate::engine::witness::{FrameWitness, LabelWitness, WitnessView};
use crate::hash::{Digest, collision_among, same_hash, same_optional_hash};
use crate::text;
use vstd::arithmetic::power2::pow2;
use vstd::prelude::*;

verus! {

/// Rounds after which a challenge is abandoned as malformed.
///
/// Bisection over a `u64` range converges in at most 64 rounds. Exceeding that means the state
/// machine failed to make progress, which is a bug rather than a party's fault.
pub const MAX_ROUNDS: u32 = 64;

/// A position in an execution, counted in instructions executed.
///
/// Step zero is the state before anything ran. Step *n* is the state after `n` instructions.
#[derive(Debug, Clone, Copy, PartialEq, Eq, PartialOrd, Ord, Hash, Structural)]
pub struct Step(pub u64);

impl Default for Step {
    fn default() -> (r: Self)
        ensures
            r.0 == 0,
    {
        Step(0)
    }
}

impl Step {
    /// The state before execution begins.
    #[must_use]
    pub fn zero() -> (r: Self)
        ensures
            r.0 == 0,
    {
        Step(0)
    }

    /// Construct a position from an instruction count.
    #[must_use]
    pub fn new(instructions: u64) -> (r: Self)
        ensures
            r.0 == instructions,
    {
        Step(instructions)
    }

    /// The instruction count.
    #[must_use]
    pub fn get(self) -> (r: u64)
        ensures
            r == self.0,
    {
        self.0
    }

    /// How the position is written.
    pub open spec fn message(self) -> Seq<char> {
        "step "@ + text::decimal_text(self.0 as nat)
    }

    /// The position in words.
    #[must_use]
    pub fn to_string(&self) -> (r: String)
        ensures
            r@ == self.message(),
    {
        text::join2("step ", text::decimal(self.0).as_str())
    }
}

/// Which side of a dispute.
#[derive(Debug, Clone, Copy, PartialEq, Eq, Structural)]
pub enum Party {
    /// The party whose trace was presented first.
    First,
    /// The other one.
    Second,
}

impl Party {
    /// How the party is called.
    pub open spec fn message(self) -> Seq<char> {
        match self {
            Party::First => "first party"@,
            Party::Second => "second party"@,
        }
    }

    /// The party in words.
    #[must_use]
    pub fn to_string(&self) -> (r: String)
        ensures
            r@ == self.message(),
    {
        match self {
            Party::First => String::from_str("first party"),
            Party::Second => String::from_str("second party"),
        }
    }
}

/// A party did not answer within its window.
///
/// Volunteers disconnect; this is the ordinary case, not the adversarial one.
#[derive(Debug, Clone, Copy, PartialEq, Eq, Structural)]
pub struct Absent;

/// What a party says of a step: its state root there, that its execution ended before it, or
/// nothing.
pub type Answer = Result<Option<Digest>, Absent>;

/// What a party was asked and what it said, in order.
pub type Dialogue = Seq<(Step, Answer)>;

/// A party to a dispute, able to say what state it claims to have been in.
///
/// Implementations replay their own execution to answer. The trait exists so the protocol can be
/// tested against recorded sequences with no interpreter involved, and driven against real
/// executions by the same code.
pub trait Claimant {
    /// Everything this party was asked so far, and what it said.
    ///
    /// A party written outside verified code has no use for it and may leave it out.
    open spec fn dialogue(&self) -> Dialogue {
        arbitrary()
    }

    /// The state root after `step` instructions.
    ///
    /// `Ok(None)` means this party's execution ended before reaching that step: it finished or
    /// trapped. That is a legitimate answer, and two parties that stop at different points
    /// disagree from the first step past the earlier stop. [`Absent`] means it failed to answer.
    ///
    /// Nothing is promised of what is said, nor that a question gets the same answer twice.
    fn root_at(&mut self, step: Step) -> (r: Result<Option<Digest>, Absent>)
        ensures
            final(self).dialogue() == old(self).dialogue().push((step, r)),
    ;
}

/// What the coordinator should do next.
#[derive(Debug, Clone, Copy, PartialEq, Eq, Structural)]
#[must_use]
pub enum Round {
    /// Ask both parties to commit to their state at this step.
    Ask {
        /// The step in question.
        step: Step,
    },
    /// The bounds are adjacent; the search is over.
    Settled {
        /// Executing the instruction at this step is what made the two disagree.
        divergence: Step,
    },
}

/// The interactive bisection, as a state machine.
///
/// Pure: it holds two bounds and a round count, and knows nothing about networks, timeouts or
/// interpreters. A coordinator drives it by playing [`Round::Ask`] against both parties and
/// feeding the answers back through [`Challenge::record`].
///
/// The parties agree at the lower bound and disagree at the upper one, and the lower is below
/// the upper. Each round halves the gap while preserving both, so the search cannot fail to
/// terminate on a genuine disagreement.
#[derive(Debug, PartialEq, Eq, Structural)]
pub struct Challenge {
    agreed: u64,
    disagreed: u64,
    rounds: u32,
}

/// The value of a [`Challenge`].
pub struct Bracket {
    /// The parties agree here.
    pub agreed: u64,
    /// The parties disagree here.
    pub disagreed: u64,
    /// Rounds played.
    pub rounds: u32,
}

impl Bracket {
    /// The bounds have not crossed, and the gap has been halved every round.
    pub open spec fn narrowed(self) -> bool {
        &&& self.agreed < self.disagreed
        &&& self.rounds <= MAX_ROUNDS
        &&& self.disagreed - self.agreed <= pow2((MAX_ROUNDS - self.rounds) as nat)
    }

    /// How far apart the bounds are.
    pub open spec fn gap(self) -> int {
        self.disagreed - self.agreed
    }

    /// What comes next: the middle of the bracket, or the end of the search.
    pub open spec fn round(self) -> Round {
        if self.disagreed == self.agreed + 1 {
            Round::Settled { divergence: Step(self.agreed) }
        } else {
            Round::Ask { step: Step((self.agreed + self.gap() / 2) as u64) }
        }
    }

    /// The bracket once both parties have answered.
    pub open spec fn recorded(self, first: Option<Digest>, second: Option<Digest>) -> Bracket {
        match self.round() {
            Round::Settled { .. } => self,
            Round::Ask { step } => {
                let rounds = (self.rounds + 1) as u32;
                if first == second {
                    Bracket { agreed: step.0, rounds, ..self }
                } else {
                    Bracket { disagreed: step.0, rounds, ..self }
                }
            },
        }
    }
}

impl View for Challenge {
    type V = Bracket;

    closed spec fn view(&self) -> Bracket {
        Bracket { agreed: self.agreed, disagreed: self.disagreed, rounds: self.rounds }
    }
}

/// However the parties answer, the bounds never cross, the step asked about lies strictly
/// between them, and every round at least halves the gap, up to rounding. After
/// [`MAX_ROUNDS`] rounds the search is over.
pub proof fn law_every_round_narrows(
    c: Bracket,
    first: Option<Digest>,
    second: Option<Digest>,
)
    requires
        c.narrowed(),
    ensures
        c.recorded(first, second).narrowed(),
        c.round() matches Round::Ask { step } ==> c.agreed < step.0 < c.disagreed
            && c.rounds < MAX_ROUNDS && 2 * c.recorded(first, second).gap() <= c.gap() + 1,
        c.round() matches Round::Settled { .. } ==> c.recorded(first, second) == c,
        c.rounds == MAX_ROUNDS ==> c.round() is Settled,
{
    vstd::arithmetic::power2::lemma2_to64();
    if c.rounds < MAX_ROUNDS {
        vstd::arithmetic::power2::lemma_pow2_unfold((MAX_ROUNDS - c.rounds) as nat);
    }
}

impl Clone for Challenge {
    fn clone(&self) -> (r: Self)
        ensures
            r == *self,
    {
        proof {
            use_type_invariant(self);
        }
        Challenge { agreed: self.agreed, disagreed: self.disagreed, rounds: self.rounds }
    }
}

impl Challenge {
    #[verifier::type_invariant]
    closed spec fn consistent(self) -> bool {
        self@.narrowed()
    }

    /// Open a challenge over `[0, length]`.
    ///
    /// The caller must already have established that the parties agree at step 0 and disagree at
    /// `length`; [`resolve`] does that. Returns `None` for a zero length, where there is no
    /// instruction to blame.
    #[must_use]
    pub fn open(length: Step) -> (r: Option<Self>)
        ensures
            r is Some <==> length.0 > 0,
            r matches Some(c) ==> c@ == (Bracket { agreed: 0, disagreed: length.0, rounds: 0 })
                && c@.narrowed(),
    {
        if length.0 == 0 {
            return None;
        }
        proof {
            vstd::arithmetic::power2::lemma2_to64();
        }
        Some(Challenge { agreed: 0, disagreed: length.0, rounds: 0 })
    }

    /// The step to put to both parties, or the settled answer.
    pub fn round(&self) -> (r: Round)
        ensures
            r == self@.round(),
            self@.narrowed(),
    {
        proof {
            use_type_invariant(self);
        }
        if self.disagreed == self.agreed + 1 {
            return Round::Settled { divergence: Step(self.agreed) };
        }
        // Halving the gap rather than averaging the bounds keeps the arithmetic away from
        // overflow at the top of the range.
        Round::Ask { step: Step(self.agreed + (self.disagreed - self.agreed) / 2) }
    }

    /// Record what the two parties claimed at the step [`Challenge::round`] named.
    ///
    /// Agreement moves the lower bound up, disagreement moves the upper bound down. Calling this
    /// on a settled challenge does nothing.
    pub fn record(&mut self, first: Option<Digest>, second: Option<Digest>)
        ensures
            final(self)@ == old(self)@.recorded(first, second),
            final(self)@.narrowed(),
    {
        proof {
            use_type_invariant(&*self);
            law_every_round_narrows(self@, first, second);
        }
        let step: Step = match self.round() {
            Round::Ask { step } => step,
            Round::Settled { .. } => return,
        };
        let rounds: u32 = self.rounds.saturating_add(1);
        if same_optional_hash(&first, &second) {
            *self = Challenge { agreed: step.0, disagreed: self.disagreed, rounds };
        } else {
            *self = Challenge { agreed: self.agreed, disagreed: step.0, rounds };
        }
    }

    /// Messages exchanged so far.
    #[must_use]
    pub fn rounds(&self) -> (r: u32)
        ensures
            r == self@.rounds,
    {
        self.rounds
    }

    /// The current bracket: the parties agree at the first and disagree at the second.
    #[must_use]
    pub fn bounds(&self) -> (r: (Step, Step))
        ensures
            r == (Step(self@.agreed), Step(self@.disagreed)),
            self@.narrowed(),
    {
        proof {
            use_type_invariant(self);
        }
        (Step(self.agreed), Step(self.disagreed))
    }
}

/// Everything an adjudicator needs to decide who lied.
///
/// The two parties agreed on the state entering the instruction and disagree on the state
/// leaving it. Executing that one instruction from the agreed state produces a root matching
/// exactly one of the two claims, or neither, if both parties are wrong.
#[derive(Debug, Clone, PartialEq, Eq)]
pub struct Verdict {
    /// Executing the instruction at this step is what made the two disagree.
    pub divergence: Step,
    /// The root both parties agreed on immediately before it.
    pub agreed_root: Option<Digest>,
    /// What the first party claims the state became.
    pub first_claim: Option<Digest>,
    /// What the second party claims the state became.
    pub second_claim: Option<Digest>,
    /// Messages exchanged to get here.
    pub rounds: u32,
}

/// Why a challenge could not be settled.
#[derive(Debug, Clone, Copy, PartialEq, Eq, Structural)]
pub enum DisputeError {
    /// The parties agree at the end, so there was nothing to settle.
    NoDisagreement,
    /// The parties disagree before executing anything.
    ///
    /// They are not running the same work unit, or one has corrupted its inputs.
    DisagreeAtStart,
    /// Nothing executed, so no instruction can be blamed.
    EmptyExecution,
    /// A party stopped answering.
    Abandoned {
        /// The party that went quiet.
        by: Party,
        /// The step it was asked about.
        at: Step,
        /// Rounds completed before it did.
        rounds: u32,
    },
    /// The search failed to converge within [`MAX_ROUNDS`], which means a bug here rather than
    /// misbehaviour by a party. [`resolve`] never reports it.
    DidNotConverge,
}

impl DisputeError {
    /// The message.
    pub open spec fn message(self) -> Seq<char> {
        match self {
            DisputeError::NoDisagreement => "the parties agree; there is no dispute to settle"@,
            DisputeError::DisagreeAtStart =>
                "the parties disagree before executing anything, so they are not running the same work unit"@,
            DisputeError::EmptyExecution => "nothing executed, so no instruction can be blamed"@,
            DisputeError::Abandoned { by, at, rounds } => "the "@ + by.message()
                + " stopped answering at "@ + at.message() + " after "@ + (text::decimal_text(
                rounds as nat,
            ) + " rounds"@),
            DisputeError::DidNotConverge => "bisection did not converge within 64 rounds"@,
        }
    }

    /// A description.
    #[must_use]
    pub fn to_string(&self) -> (r: String)
        ensures
            r@ == self.message(),
    {
        match self {
            DisputeError::NoDisagreement => String::from_str(
                "the parties agree; there is no dispute to settle",
            ),
            DisputeError::DisagreeAtStart => String::from_str(
                "the parties disagree before executing anything, so they are not running the same work unit",
            ),
            DisputeError::EmptyExecution => String::from_str(
                "nothing executed, so no instruction can be blamed",
            ),
            DisputeError::Abandoned { by, at, rounds } => {
                let mut r = text::join5(
                    "the ",
                    by.to_string().as_str(),
                    " stopped answering at ",
                    at.to_string().as_str(),
                    " after ",
                );
                let tail = text::join2(text::decimal(*rounds as u64).as_str(), " rounds");
                r.append(tail.as_str());
                r
            },
            DisputeError::DidNotConverge => String::from_str(
                "bisection did not converge within 64 rounds",
            ),
        }
    }
}

/// What was said after a point in a dialogue.
pub open spec fn since(before: Dialogue, after: Dialogue) -> Dialogue {
    after.skip(before.len() as int)
}

/// Did one party go quiet on its first question, the other having been asked nothing?
pub open spec fn quiet(
    asked: Dialogue,
    other: Dialogue,
    by: Party,
    at: Step,
    rounds: u32,
    r: Result<Verdict, DisputeError>,
) -> bool {
    &&& asked.len() == 1
    &&& asked[0].1 is Err
    &&& other.len() == 0
    &&& r == Err::<Verdict, _>(DisputeError::Abandoned { by, at, rounds })
}

/// The last questions: the agreed state once more, and what each party claims came of it.
pub open spec fn concluded(
    c: Bracket,
    divergence: Step,
    a: Dialogue,
    b: Dialogue,
    r: Result<Verdict, DisputeError>,
) -> bool {
    let after = Step((divergence.0 + 1) as u64);
    &&& a.len() > 0
    &&& a[0].0 == divergence
    &&& match a[0].1 {
        Err(_) => quiet(a, b, Party::First, divergence, c.rounds, r),
        Ok(agreed_root) => {
            &&& a.len() == 2
            &&& a[1].0 == after
            &&& match a[1].1 {
                Err(_) => quiet(a.drop_first(), b, Party::First, after, c.rounds, r),
                Ok(first_claim) => {
                    &&& b.len() == 1
                    &&& b[0].0 == after
                    &&& r == match b[0].1 {
                        Err(_) => Err(
                            DisputeError::Abandoned { by: Party::Second, at: after, rounds: c.rounds },
                        ),
                        Ok(second_claim) => Ok(
                            Verdict {
                                divergence,
                                agreed_root,
                                first_claim,
                                second_claim,
                                rounds: c.rounds,
                            },
                        ),
                    }
                },
            }
        },
    }
}

/// Is this how the search ends, from a bracket on, with these questions and these answers?
pub open spec fn searched(c: Bracket, a: Dialogue, b: Dialogue, r: Result<Verdict, DisputeError>) -> bool
    decreases c.gap(),
{
    if !c.narrowed() {
        false
    } else {
        match c.round() {
            Round::Settled { divergence } => concluded(c, divergence, a, b, r),
            Round::Ask { step } => {
                &&& a.len() > 0
                &&& a[0].0 == step
                &&& match a[0].1 {
                    Err(_) => quiet(a, b, Party::First, step, c.rounds, r),
                    Ok(x) => {
                        &&& b.len() > 0
                        &&& b[0].0 == step
                        &&& match b[0].1 {
                            Err(_) => a.len() == 1 && quiet(
                                b,
                                Seq::empty(),
                                Party::Second,
                                step,
                                c.rounds,
                                r,
                            ),
                            Ok(y) => searched(
                                c.recorded(x, y),
                                a.drop_first(),
                                b.drop_first(),
                                r,
                            ),
                        }
                    },
                }
            },
        }
    }
}

/// Is this how a dispute ends, with these questions and these answers?
///
/// Both ends are asked about first: the parties must agree at step zero and disagree at the end.
pub open spec fn resolved(
    length: Step,
    a: Dialogue,
    b: Dialogue,
    r: Result<Verdict, DisputeError>,
) -> bool {
    if length.0 == 0 {
        a.len() == 0 && b.len() == 0 && r == Err::<Verdict, _>(DisputeError::EmptyExecution)
    } else {
        &&& a.len() > 0
        &&& a[0].0 == Step(0)
        &&& match a[0].1 {
            Err(_) => quiet(a, b, Party::First, Step(0), 0, r),
            Ok(start_first) => {
                &&& b.len() > 0
                &&& b[0].0 == Step(0)
                &&& match b[0].1 {
                    Err(_) => a.len() == 1 && quiet(
                        b,
                        Seq::empty(),
                        Party::Second,
                        Step(0),
                        0,
                        r,
                    ),
                    Ok(start_second) => if start_first != start_second {
                        a.len() == 1 && b.len() == 1 && r == Err::<Verdict, _>(
                            DisputeError::DisagreeAtStart,
                        )
                    } else {
                        ended(length, a.drop_first(), b.drop_first(), r)
                    },
                }
            },
        }
    }
}

/// The same, once the parties are known to agree at step zero.
pub open spec fn ended(
    length: Step,
    a: Dialogue,
    b: Dialogue,
    r: Result<Verdict, DisputeError>,
) -> bool {
    &&& a.len() > 0
    &&& a[0].0 == length
    &&& match a[0].1 {
        Err(_) => quiet(a, b, Party::First, length, 0, r),
        Ok(end_first) => {
            &&& b.len() > 0
            &&& b[0].0 == length
            &&& match b[0].1 {
                Err(_) => a.len() == 1 && quiet(b, Seq::empty(), Party::Second, length, 0, r),
                Ok(end_second) => if end_first == end_second {
                    a.len() == 1 && b.len() == 1 && r == Err::<Verdict, _>(
                        DisputeError::NoDisagreement,
                    )
                } else {
                    searched(
                        Bracket { agreed: 0, disagreed: length.0, rounds: 0 },
                        a.drop_first(),
                        b.drop_first(),
                        r,
                    )
                },
            }
        },
    }
}

/// Ask one party, attributing silence to it.
fn ask<C: Claimant>(claimant: &mut C, party: Party, step: Step, rounds: u32) -> (r: Result<
    Option<Digest>,
    DisputeError,
>)
    ensures
        ({
            let d = final(claimant).dialogue();
            &&& d.len() == old(claimant).dialogue().len() + 1
            &&& d.drop_last() == old(claimant).dialogue()
            &&& d.last().0 == step
            &&& match d.last().1 {
                Ok(root) => r == Ok::<_, DisputeError>(root),
                Err(_) => r == Err::<Option<Digest>, _>(
                    DisputeError::Abandoned { by: party, at: step, rounds },
                ),
            }
        }),
{
    let answer = claimant.root_at(step);
    assert(claimant.dialogue().drop_last() =~= old(claimant).dialogue());
    match answer {
        Ok(root) => Ok(root),
        Err(_) => Err(DisputeError::Abandoned { by: party, at: step, rounds }),
    }
}

/// A dialogue that goes on is the one before and what was said since.
proof fn lemma_since(h0: Dialogue, h1: Dialogue, h2: Dialogue)
    requires
        h1.len() == h0.len() + 1,
        h1.drop_last() == h0,
        h1.is_prefix_of(h2),
    ensures
        h0.is_prefix_of(h2),
        since(h0, h2).len() > 0,
        since(h0, h2)[0] == h1.last(),
        since(h0, h2).drop_first() == since(h1, h2),
{
    assert(h0 =~= h2.take(h0.len() as int)) by {
        assert forall|i: int| 0 <= i < h0.len() implies h0[i] == h2[i] by {
            assert(h1.drop_last()[i] == h1[i]);
        }
    }
    assert(since(h0, h2).drop_first() =~= since(h1, h2));
}

/// Play the search out, from a bracket on.
fn search<A: Claimant, B: Claimant>(first: &mut A, second: &mut B, challenge: Challenge) -> (r:
    Result<Verdict, DisputeError>)
    ensures
        old(first).dialogue().is_prefix_of(final(first).dialogue()),
        old(second).dialogue().is_prefix_of(final(second).dialogue()),
        searched(
            challenge@,
            since(old(first).dialogue(), final(first).dialogue()),
            since(old(second).dialogue(), final(second).dialogue()),
            r,
        ),
    decreases challenge@.gap(),
{
    let ghost c = challenge@;
    let ghost a0 = first.dialogue();
    let ghost b0 = second.dialogue();
    let rounds: u32 = challenge.rounds();
    assert(since(a0, a0) =~= Seq::empty());
    assert(since(b0, b0) =~= Seq::empty());
    match challenge.round() {
        Round::Settled { divergence } => {
            let after = Step(divergence.0 + 1);
            let agreed_root = match ask(first, Party::First, divergence, rounds) {
                Ok(root) => root,
                Err(e) => {
                    proof {
                        lemma_since(a0, first.dialogue(), first.dialogue());
                    }
                    return Err(e);
                },
            };
            let ghost a1 = first.dialogue();
            let first_claim = match ask(first, Party::First, after, rounds) {
                Ok(root) => root,
                Err(e) => {
                    proof {
                        lemma_since(a1, first.dialogue(), first.dialogue());
                        lemma_since(a0, a1, first.dialogue());
                    }
                    return Err(e);
                },
            };
            proof {
                lemma_since(a1, first.dialogue(), first.dialogue());
                lemma_since(a0, a1, first.dialogue());
            }
            let second_claim = match ask(second, Party::Second, after, rounds) {
                Ok(root) => root,
                Err(e) => {
                    proof {
                        lemma_since(b0, second.dialogue(), second.dialogue());
                    }
                    return Err(e);
                },
            };
            proof {
                lemma_since(b0, second.dialogue(), second.dialogue());
            }
            Ok(Verdict { divergence, agreed_root, first_claim, second_claim, rounds })
        },
        Round::Ask { step } => {
            proof {
                law_every_round_narrows(c, None, None);
            }
            if rounds >= MAX_ROUNDS {
                return Err(DisputeError::DidNotConverge);
            }
            let x = match ask(first, Party::First, step, rounds) {
                Ok(root) => root,
                Err(e) => {
                    proof {
                        lemma_since(a0, first.dialogue(), first.dialogue());
                    }
                    return Err(e);
                },
            };
            let ghost a1 = first.dialogue();
            let y = match ask(second, Party::Second, step, rounds) {
                Ok(root) => root,
                Err(e) => {
                    proof {
                        lemma_since(a0, a1, a1);
                        lemma_since(b0, second.dialogue(), second.dialogue());
                    }
                    return Err(e);
                },
            };
            let ghost b1 = second.dialogue();
            let mut next = challenge;
            next.record(x, y);
            proof {
                law_every_round_narrows(c, x, y);
            }
            let r = search(first, second, next);
            proof {
                lemma_since(a0, a1, first.dialogue());
                lemma_since(b0, b1, second.dialogue());
            }
            r
        },
    }
}

/// Run the bisection to completion against two parties.
///
/// `length` should be the longer of the two executions, so that a party which stopped early
/// shows up as disagreeing from the first step past its end.
///
/// What comes back is fixed by what the parties were asked and what they said. Note that
/// [`DisputeError::NoDisagreement`] means the challenge should not have been opened rather than
/// that anything went wrong.
pub fn resolve<A: Claimant, B: Claimant>(first: &mut A, second: &mut B, length: Step) -> (r: Result<
    Verdict,
    DisputeError,
>)
    ensures
        old(first).dialogue().is_prefix_of(final(first).dialogue()),
        old(second).dialogue().is_prefix_of(final(second).dialogue()),
        resolved(
            length,
            since(old(first).dialogue(), final(first).dialogue()),
            since(old(second).dialogue(), final(second).dialogue()),
            r,
        ),
{
    let ghost a0 = first.dialogue();
    let ghost b0 = second.dialogue();
    assert(since(a0, a0) =~= Seq::empty());
    assert(since(b0, b0) =~= Seq::empty());
    let challenge = match Challenge::open(length) {
        Some(c) => c,
        None => return Err(DisputeError::EmptyExecution),
    };
    // Both ends must hold before the search means anything: the parties start from the same
    // state and end in different ones.
    let start_first = match ask(first, Party::First, Step(0), 0) {
        Ok(root) => root,
        Err(e) => {
            proof {
                lemma_since(a0, first.dialogue(), first.dialogue());
            }
            return Err(e);
        },
    };
    let ghost a1 = first.dialogue();
    let start_second = match ask(second, Party::Second, Step(0), 0) {
        Ok(root) => root,
        Err(e) => {
            proof {
                lemma_since(a0, a1, a1);
                lemma_since(b0, second.dialogue(), second.dialogue());
            }
            return Err(e);
        },
    };
    let ghost b1 = second.dialogue();
    proof {
        lemma_since(a0, a1, a1);
        lemma_since(b0, b1, b1);
        assert(since(a1, a1) =~= Seq::empty());
        assert(since(b1, b1) =~= Seq::empty());
    }
    if !same_optional_hash(&start_first, &start_second) {
        return Err(DisputeError::DisagreeAtStart);
    }
    let end_first = match ask(first, Party::First, length, 0) {
        Ok(root) => root,
        Err(e) => {
            proof {
                lemma_since(a1, first.dialogue(), first.dialogue());
                lemma_since(a0, a1, first.dialogue());
            }
            return Err(e);
        },
    };
    let ghost a2 = first.dialogue();
    proof {
        lemma_since(a1, a2, a2);
        lemma_since(a0, a1, a2);
        assert(since(a2, a2) =~= Seq::empty());
    }
    let end_second = match ask(second, Party::Second, length, 0) {
        Ok(root) => root,
        Err(e) => {
            proof {
                lemma_since(b1, second.dialogue(), second.dialogue());
                lemma_since(b0, b1, second.dialogue());
            }
            return Err(e);
        },
    };
    let ghost b2 = second.dialogue();
    proof {
        lemma_since(b1, b2, b2);
        lemma_since(b0, b1, b2);
        assert(since(b2, b2) =~= Seq::empty());
    }
    if same_optional_hash(&end_first, &end_second) {
        return Err(DisputeError::NoDisagreement);
    }
    let r = search(first, second, challenge);
    proof {
        lemma_since(a1, a2, first.dialogue());
        lemma_since(a0, a1, first.dialogue());
        lemma_since(b1, b2, second.dialogue());
        lemma_since(b0, b1, second.dialogue());
    }
    r
}

/// Does a party say what it would say of each step, whenever it is asked?
pub open spec fn consistent_with(d: Dialogue, claims: spec_fn(u64) -> Option<Digest>) -> bool {
    forall|i: int| 0 <= i < d.len() ==> #[trigger] d[i].1 == Ok::<_, Absent>(claims(d[i].0.0))
}

/// What a search finds between two parties that answer consistently.
proof fn lemma_search_finds(
    c: Bracket,
    a: Dialogue,
    b: Dialogue,
    r: Result<Verdict, DisputeError>,
    f: spec_fn(u64) -> Option<Digest>,
    g: spec_fn(u64) -> Option<Digest>,
)
    requires
        c.narrowed(),
        searched(c, a, b, r),
        consistent_with(a, f),
        consistent_with(b, g),
        f(c.agreed) == g(c.agreed),
        f(c.disagreed) != g(c.disagreed),
    ensures
        r matches Ok(v) && c.agreed <= v.divergence.0 < c.disagreed && points_at(v, f, g),
    decreases c.gap(),
{
    if let Round::Ask { step } = c.round() {
        let (x, y) = (f(step.0), g(step.0));
        law_every_round_narrows(c, x, y);
        assert(a[0].1 == Ok::<_, Absent>(x));
        assert(b[0].1 == Ok::<_, Absent>(y));
        assert forall|i: int| 0 <= i < a.drop_first().len() implies #[trigger] a.drop_first()[i].1
            == Ok::<_, Absent>(f(a.drop_first()[i].0.0)) by {
            assert(a.drop_first()[i] == a[i + 1]);
        }
        assert forall|i: int| 0 <= i < b.drop_first().len() implies #[trigger] b.drop_first()[i].1
            == Ok::<_, Absent>(g(b.drop_first()[i].0.0)) by {
            assert(b.drop_first()[i] == b[i + 1]);
        }
        lemma_search_finds(c.recorded(x, y), a.drop_first(), b.drop_first(), r, f, g);
    } else {
        let d = c.agreed;
        assert(a[0].1 == Ok::<_, Absent>(f(d)));
        assert(a[1].1 == Ok::<_, Absent>(f((d + 1) as u64)));
        assert(b[0].1 == Ok::<_, Absent>(g((d + 1) as u64)));
    }
}

/// Does a verdict name an instruction that two parties agree on entering and disagree on
/// leaving, with what each claims of it?
pub open spec fn points_at(
    v: Verdict,
    f: spec_fn(u64) -> Option<Digest>,
    g: spec_fn(u64) -> Option<Digest>,
) -> bool {
    let (d, after) = (v.divergence.0, (v.divergence.0 + 1) as u64);
    &&& f(d) == g(d)
    &&& f(after) != g(after)
    &&& v.agreed_root == f(d)
    &&& v.first_claim == f(after)
    &&& v.second_claim == g(after)
}

/// Between parties that answer, and answer consistently, a dispute is always settled if they
/// agree at the start and not at the end, and the verdict names an instruction they agree on
/// entering and disagree on leaving.
pub proof fn law_the_divergence_is_found(
    length: Step,
    a: Dialogue,
    b: Dialogue,
    r: Result<Verdict, DisputeError>,
    f: spec_fn(u64) -> Option<Digest>,
    g: spec_fn(u64) -> Option<Digest>,
)
    requires
        length.0 > 0,
        resolved(length, a, b, r),
        consistent_with(a, f),
        consistent_with(b, g),
    ensures
        f(0) != g(0) ==> r == Err::<Verdict, _>(DisputeError::DisagreeAtStart),
        f(0) == g(0) && f(length.0) == g(length.0) ==> r == Err::<Verdict, _>(
            DisputeError::NoDisagreement,
        ),
        f(0) == g(0) && f(length.0) != g(length.0) ==> (r matches Ok(v) && v.divergence.0
            < length.0 && points_at(v, f, g)),
{
    vstd::arithmetic::power2::lemma2_to64();
    assert(a[0].1 == Ok::<_, Absent>(f(0)));
    assert(b[0].1 == Ok::<_, Absent>(g(0)));
    if f(0) == g(0) {
        let (a1, b1) = (a.drop_first(), b.drop_first());
        assert forall|i: int| 0 <= i < a1.len() implies #[trigger] a1[i].1 == Ok::<_, Absent>(
            f(a1[i].0.0),
        ) by {
            assert(a1[i] == a[i + 1]);
        }
        assert forall|i: int| 0 <= i < b1.len() implies #[trigger] b1[i].1 == Ok::<_, Absent>(
            g(b1[i].0.0),
        ) by {
            assert(b1[i] == b[i + 1]);
        }
        assert(a1[0].1 == Ok::<_, Absent>(f(length.0)));
        assert(b1[0].1 == Ok::<_, Absent>(g(length.0)));
        if f(length.0) != g(length.0) {
            let (a2, b2) = (a1.drop_first(), b1.drop_first());
            assert forall|i: int| 0 <= i < a2.len() implies #[trigger] a2[i].1 == Ok::<_, Absent>(
                f(a2[i].0.0),
            ) by {
                assert(a2[i] == a1[i + 1]);
            }
            assert forall|i: int| 0 <= i < b2.len() implies #[trigger] b2[i].1 == Ok::<_, Absent>(
                g(b2[i].0.0),
            ) by {
                assert(b2[i] == b1[i + 1]);
            }
            lemma_search_finds(
                Bracket { agreed: 0, disagreed: length.0, rounds: 0 },
                a2,
                b2,
                r,
                f,
                g,
            );
        }
    }
}

/// Where two executions agree up to some step and disagree ever after, the instruction blamed is
/// the one that leads to that step.
pub proof fn law_the_first_divergence_is_blamed(
    length: Step,
    a: Dialogue,
    b: Dialogue,
    r: Result<Verdict, DisputeError>,
    f: spec_fn(u64) -> Option<Digest>,
    g: spec_fn(u64) -> Option<Digest>,
    first_difference: u64,
)
    requires
        resolved(length, a, b, r),
        consistent_with(a, f),
        consistent_with(b, g),
        0 < first_difference <= length.0,
        forall|i: u64| i < first_difference ==> #[trigger] f(i) == g(i),
        forall|i: u64| first_difference <= i <= length.0 ==> #[trigger] f(i) != g(i),
    ensures
        r matches Ok(v) && v.divergence.0 + 1 == first_difference,
{
    law_the_divergence_is_found(length, a, b, r, f, g);
    assert(f(0) == g(0));
    assert(f(length.0) != g(length.0));
    let d = r->Ok_0.divergence.0;
    assert(f(d) == g(d));
    assert(f((d + 1) as u64) != g((d + 1) as u64));
}

proof fn lemma_search_rounds(
    c: Bracket,
    a: Dialogue,
    b: Dialogue,
    r: Result<Verdict, DisputeError>,
    k: nat,
)
    requires
        c.narrowed(),
        searched(c, a, b, r),
        c.rounds <= k,
        c.gap() <= pow2((k - c.rounds) as nat),
    ensures
        r matches Ok(v) ==> v.rounds <= k,
        a.len() <= k - c.rounds + 2,
        b.len() <= k - c.rounds + 1,
        r != Err::<Verdict, _>(DisputeError::DidNotConverge),
    decreases c.gap(),
{
    if let Round::Ask { .. } = c.round() {
        vstd::arithmetic::power2::lemma2_to64();
        if c.rounds == k {
            assert(pow2(0) == 1);
        }
        vstd::arithmetic::power2::lemma_pow2_unfold((k - c.rounds) as nat);
        if let (Ok(x), Ok(y)) = (a[0].1, b[0].1) {
            if b.len() > 0 {
                law_every_round_narrows(c, x, y);
                lemma_search_rounds(c.recorded(x, y), a.drop_first(), b.drop_first(), r, k);
            }
        }
    }
}

/// An execution of up to `2^k` instructions is settled in at most `k` rounds, for which neither
/// party answers more than `k + 4` questions, and the search always converges.
pub proof fn law_rounds_are_logarithmic(
    length: Step,
    a: Dialogue,
    b: Dialogue,
    r: Result<Verdict, DisputeError>,
    k: nat,
)
    requires
        resolved(length, a, b, r),
        length.0 <= pow2(k),
    ensures
        r matches Ok(v) ==> v.rounds <= k,
        a.len() <= k + 4,
        b.len() <= k + 3,
        r != Err::<Verdict, _>(DisputeError::DidNotConverge),
{
    vstd::arithmetic::power2::lemma2_to64();
    if length.0 > 0 {
        if let (Ok(x), Ok(y)) = (a[0].1, b[0].1) {
            let (a1, b1) = (a.drop_first(), b.drop_first());
            if b.len() > 0 && x == y {
                if let (Ok(p), Ok(q)) = (a1[0].1, b1[0].1) {
                    if b1.len() > 0 && p != q {
                        lemma_search_rounds(
                            Bracket { agreed: 0, disagreed: length.0, rounds: 0 },
                            a1.drop_first(),
                            b1.drop_first(),
                            r,
                            k,
                        );
                    }
                }
            }
        }
    }
}

/// Who the adjudicator found to be telling the truth.
#[derive(Debug, Clone, PartialEq, Eq)]
pub enum Judgment {
    /// One party's claim matched what the instruction actually produces.
    Guilty {
        /// The party whose claim was wrong.
        liar: Party,
    },
    /// Neither claim matched. Both parties are wrong, which is not a case the protocol can
    /// resolve in anyone's favour.
    BothWrong {
        /// What executing the instruction actually produces, or `None` if it trapped and there
        /// is no state after it.
        actual: Option<Digest>,
    },
    /// Both claims matched, which cannot happen where they differ: the verdict and the witness
    /// describe different disputes.
    Inconsistent,
}

/// Why a disputed instruction could not be adjudicated.
#[derive(Debug, Clone, PartialEq, Eq)]
pub enum AdjudicationError {
    /// The witness does not describe the state the parties agreed on.
    ///
    /// It commits to another root, so the party that sent it forged or damaged it.
    WitnessDoesNotMatchAgreedState,
    /// The witness could not be turned back into a machine.
    UnusableWitness(WitnessError),
    /// The disputed instruction could not be executed from the witness.
    ///
    /// This is a [`Trap::WitnessIncomplete`]: the witness omitted a page the instruction needs,
    /// which is the supplier's failure rather than a fact about the computation. Any other trap
    /// is a real outcome and is compared like any other result.
    ExecutionFailed(Trap),
    /// Bisection never produced an agreed root to start from.
    NoAgreedState,
}

/// The value of an [`AdjudicationError`].
pub enum AdjudicationErrorView {
    /// The witness is of another state.
    WitnessDoesNotMatchAgreedState,
    /// The witness is no machine.
    UnusableWitness(WitnessError),
    /// The witness lacks a page.
    ExecutionFailed(TrapView),
    /// There is no agreed state.
    NoAgreedState,
}

impl View for AdjudicationError {
    type V = AdjudicationErrorView;

    open spec fn view(&self) -> AdjudicationErrorView {
        match *self {
            AdjudicationError::WitnessDoesNotMatchAgreedState =>
                AdjudicationErrorView::WitnessDoesNotMatchAgreedState,
            AdjudicationError::UnusableWitness(e) => AdjudicationErrorView::UnusableWitness(e),
            AdjudicationError::ExecutionFailed(t) => AdjudicationErrorView::ExecutionFailed(t@),
            AdjudicationError::NoAgreedState => AdjudicationErrorView::NoAgreedState,
        }
    }
}

impl AdjudicationErrorView {
    /// The message.
    pub open spec fn message(self) -> Seq<char> {
        match self {
            AdjudicationErrorView::WitnessDoesNotMatchAgreedState =>
                "the witness does not reconstruct the state the parties agreed on"@,
            AdjudicationErrorView::UnusableWitness(e) => "unusable witness: "@ + e.message(),
            AdjudicationErrorView::ExecutionFailed(t) =>
                "could not execute the disputed instruction: "@ + t.message(),
            AdjudicationErrorView::NoAgreedState =>
                "bisection produced no agreed state to execute from"@,
        }
    }
}

impl AdjudicationError {
    /// A description.
    #[must_use]
    pub fn to_string(&self) -> (r: String)
        ensures
            r@ == self@.message(),
    {
        match self {
            AdjudicationError::WitnessDoesNotMatchAgreedState => String::from_str(
                "the witness does not reconstruct the state the parties agreed on",
            ),
            AdjudicationError::UnusableWitness(e) => text::join2(
                "unusable witness: ",
                e.to_string().as_str(),
            ),
            AdjudicationError::ExecutionFailed(t) => text::join2(
                "could not execute the disputed instruction: ",
                t.to_string().as_str(),
            ),
            AdjudicationError::NoAgreedState => String::from_str(
                "bisection produced no agreed state to execute from",
            ),
        }
    }
}

/// Which claims hold, given what the instruction actually produces.
pub open spec fn judged(
    actual: Option<Digest>,
    first: Option<Digest>,
    second: Option<Digest>,
) -> Judgment {
    if actual == first && actual == second {
        Judgment::Inconsistent
    } else if actual == first {
        Judgment::Guilty { liar: Party::Second }
    } else if actual == second {
        Judgment::Guilty { liar: Party::First }
    } else {
        Judgment::BothWrong { actual }
    }
}

/// What one instruction makes of a state: the root after it, or nothing if it trapped.
pub open spec fn root_after_one(m: MachineView) -> Option<Digest> {
    match m.stepped() {
        (next, Ok(_)) => Some(next.root()),
        (_, Err(_)) => None,
    }
}

/// Does a label name the `end` that its construct has?
fn label_fits_function(f: &Function, l: LabelWitness) -> (r: bool)
    ensures
        r == label_fits(*f, l),
{
    if l.is_loop {
        if l.branch_target == u32::MAX {
            return true;
        }
        if l.branch_target == 0 || l.branch_target as usize > f.control.len() {
            return false;
        }
        match f.control[l.branch_target as usize - 1] {
            Some(c) => l.end == c.end,
            None => false,
        }
    } else {
        l.branch_target == l.end.saturating_add(1)
    }
}

/// Do the labels of a call stack fit the functions that it executes?
fn labels_fit(image: &Image, frames: &Vec<FrameWitness>) -> (r: bool)
    ensures
        r == frames_fit(*image, frames@.map_values(|f: FrameWitness| f@)),
{
    let ghost all = frames@.map_values(|f: FrameWitness| f@);
    let mut i: usize = 0;
    while i < frames.len()
        invariant
            i <= frames@.len(),
            all == frames@.map_values(|f: FrameWitness| f@),
            forall|k: int| 0 <= k < i ==> frame_fits(*image, #[trigger] all[k]),
        decreases frames@.len() - i,
    {
        let frame = &frames[i];
        assert(all[i as int] == frame@);
        let mut j: usize = 0;
        while j < frame.labels.len()
            invariant
                i < frames@.len(),
                all == frames@.map_values(|f: FrameWitness| f@),
                all[i as int] == frame@,
                j <= frame.labels@.len(),
                forall|k: int|
                    0 <= k < j ==> label_fits_in(
                        *image,
                        frame.function,
                        #[trigger] frame.labels@[k],
                    ),
            decreases frame.labels@.len() - j,
        {
            let fits: bool = match image.function(frame.function) {
                Some(f) => label_fits_function(f, frame.labels[j]),
                None => false,
            };
            if !fits {
                assert(!label_fits_in(*image, frame@.function, frame@.labels[j as int]));
                assert(!frame_fits(*image, all[i as int]));
                return false;
            }
            j = j + 1;
        }
        assert(frame_fits(*image, all[i as int]));
        i = i + 1;
    }
    true
}

/// How a dispute is decided.
pub open spec fn adjudicated(
    image: Image,
    verdict: Verdict,
    witness: WitnessView,
    input: Seq<u8>,
    limits: Limits,
) -> Result<Judgment, AdjudicationErrorView> {
    match verdict.agreed_root {
        None => Err(AdjudicationErrorView::NoAgreedState),
        Some(agreed) => if witness.commitment().root_hash() != agreed || !fits_module(
            image,
            witness,
        ) {
            Err(AdjudicationErrorView::WitnessDoesNotMatchAgreedState)
        } else {
            match restored(image, witness, input, limits) {
                Err(e) => Err(AdjudicationErrorView::UnusableWitness(e)),
                Ok(m) => match m.stepped().1 {
                    Err(TrapView::WitnessIncomplete { page }) => Err(
                        AdjudicationErrorView::ExecutionFailed(
                            TrapView::WitnessIncomplete { page },
                        ),
                    ),
                    _ => Ok(judged(root_after_one(m), verdict.first_claim, verdict.second_claim)),
                },
            }
        },
    }
}

/// Execute the disputed instruction and decide who lied.
///
/// The adjudicator never replays the execution. It is handed the agreed state as a [`Witness`],
/// verifies it against the root bisection already established, executes exactly one instruction,
/// and compares. The cost does not depend on the length of the disputed execution.
///
/// What no root covers because the module fixes it has to be as the module has it: how far memory
/// may grow, and where the construct of each label ends. A witness that says otherwise is not of
/// the agreed state.
///
/// A trap during the disputed instruction is *not* an error unless it is
/// [`Trap::WitnessIncomplete`]: a trapping instruction is a legitimate outcome that a party may
/// have claimed correctly or incorrectly.
pub fn adjudicate(
    image: &Image,
    verdict: &Verdict,
    witness: &Witness,
    input: &[u8],
    limits: Limits,
) -> (r: Result<Judgment, AdjudicationError>)
    requires
        addressable(witness.memory_pages),
        addressable(witness.memory_max_pages),
    ensures
        match (r, adjudicated(*image, *verdict, witness@, input@, limits)) {
            (Ok(a), Ok(b)) => a == b,
            (Err(e), Err(f)) => e@ == f,
            _ => false,
        },
{
    let agreed: Digest = match verdict.agreed_root {
        Some(root) => root,
        None => return Err(AdjudicationError::NoAgreedState),
    };
    // The check that makes the witness trustworthy.
    let claimed: Digest = witness.commitment().root();
    if !same_hash(&claimed, &agreed) {
        return Err(AdjudicationError::WitnessDoesNotMatchAgreedState);
    }
    if witness.memory_max_pages != image.memory.maximum_pages || !labels_fit(
        image,
        &witness.frames,
    ) {
        return Err(AdjudicationError::WitnessDoesNotMatchAgreedState);
    }
    let copy: Vec<u8> = vstd::slice::slice_to_vec(input);
    let mut machine = match Machine::restore(image, witness, copy, limits) {
        Ok(machine) => machine,
        Err(e) => return Err(AdjudicationError::UnusableWitness(e)),
    };
    let ghost m = machine@;
    let actual: Option<Digest> = match machine.step() {
        Ok(_) => Some(machine.commit().root()),
        // A witness that omits a page the instruction needs is unusable; the supplier failed.
        Err(Trap::WitnessIncomplete { page }) => {
            return Err(AdjudicationError::ExecutionFailed(Trap::WitnessIncomplete { page }));
        },
        // Any other trap is a real outcome: execution stops, and a party claiming a state after
        // it is wrong.
        Err(_) => None,
    };
    assert(actual == root_after_one(m));
    Ok(judge(&actual, &verdict.first_claim, &verdict.second_claim))
}

/// Hold both claims against what the instruction produces.
pub fn judge(actual: &Option<Digest>, first: &Option<Digest>, second: &Option<Digest>) -> (r:
    Judgment)
    ensures
        r == judged(*actual, *first, *second),
{
    match (same_optional_hash(actual, first), same_optional_hash(actual, second)) {
        (true, false) => Judgment::Guilty { liar: Party::Second },
        (false, true) => Judgment::Guilty { liar: Party::First },
        (false, false) => Judgment::BothWrong { actual: *actual },
        (true, true) => Judgment::Inconsistent,
    }
}

/// Where the claims differ, at most one party is believed, and one that claims what the
/// instruction produces is never found to be lying.
pub proof fn law_the_truth_is_never_guilty(
    actual: Option<Digest>,
    first: Option<Digest>,
    second: Option<Digest>,
)
    requires
        first != second,
    ensures
        judged(actual, first, second) != Judgment::Inconsistent,
        actual == first <==> judged(actual, first, second) == (Judgment::Guilty {
            liar: Party::Second,
        }),
        actual == second <==> judged(actual, first, second) == (Judgment::Guilty {
            liar: Party::First,
        }),
{
}

/// How many resume points [`Replay`] keeps by default.
///
/// Each checkpoint is a full machine state, most of it linear memory, so the memory cost is
/// roughly the budget times the workload's memory ceiling, while the time cost of an answer falls
/// as the budget grows. Nothing the coordinator sees changes either way.
pub const DEFAULT_CHECKPOINT_BUDGET: usize = 32;

/// Never checkpoint more often than this, whatever the budget allows.
///
/// A checkpoint copies the whole machine. Below a few thousand instructions, replaying from
/// further back is cheaper than the copy that would avoid it.
pub const MIN_CHECKPOINT_INTERVAL: u64 = 4096;

/// The state of an execution after some instructions, if it starts and gets that far.
pub open spec fn state_at(image: Image, input: Seq<u8>, limits: Limits, step: u64) -> Option<
    MachineView,
> {
    match started(image, input, limits) {
        Err(_) => None,
        Ok(m) => m.after(step as nat),
    }
}

/// What an honest party says of a step.
pub open spec fn honest_root(image: Image, input: Seq<u8>, limits: Limits, step: u64) -> Option<
    Digest,
> {
    match state_at(image, input, limits, step) {
        Some(m) => Some(m.root()),
        None => None,
    }
}

/// Every other entry.
pub open spec fn halved(at: Seq<u64>) -> Seq<u64> {
    Seq::new(((at.len() + 1) / 2) as nat, |i: int| at[2 * i])
}

/// Halved until at most `budget` are left.
pub open spec fn thinned(at: Seq<u64>, budget: nat) -> Seq<u64>
    decreases at.len(),
{
    if budget == 0 || at.len() <= budget {
        at
    } else {
        thinned(halved(at), budget)
    }
}

/// How far apart resume points stand once so many are thinned to the budget: twice as far for
/// each halving, as far as that can be said.
pub open spec fn widened(interval: u64, count: nat, budget: nat) -> u64
    decreases count,
{
    if budget == 0 || count <= budget {
        interval
    } else {
        widened(
            if 2 * interval > u64::MAX {
                u64::MAX
            } else {
                (2 * interval) as u64
            },
            (count + 1) / 2,
            budget,
        )
    }
}

/// How far apart resume points are to stand when a step is asked for.
pub open spec fn spaced_for(interval: u64, step: u64, budget: usize) -> u64 {
    if budget == 0 {
        interval
    } else {
        let implied = step / budget as u64;
        let wider = if implied > interval {
            implied
        } else {
            interval
        };
        if MIN_CHECKPOINT_INTERVAL > wider {
            MIN_CHECKPOINT_INTERVAL
        } else {
            wider
        }
    }
}

/// Is an execution still going on after so many instructions?
pub open spec fn goes_on(unit: Unit, step: u64) -> bool {
    match state_at(unit.image, unit.input, unit.limits, step) {
        Some(m) => !m.finished,
        None => false,
    }
}

/// The steps at which replaying from one to another records the state: at every interval, as
/// long as the execution goes on.
pub open spec fn recorded_between(unit: Unit, from: u64, interval: u64, step: u64) -> Set<u64> {
    Set::new(
        |s: u64| from < s < step && (s - from) % interval as int == 0 && goes_on(unit, s),
    )
}

/// The last of the resume points at or before a step, or the start.
pub open spec fn is_nearest(at: Seq<u64>, step: u64, from: u64) -> bool {
    &&& from <= step
    &&& from == 0 || at.contains(from)
    &&& forall|other: u64| #[trigger] at.contains(other) && other <= step ==> other <= from
}

/// Can a step be reached from here, a resume point or the start, in so many instructions?
pub open spec fn reaches(at: Seq<u64>, interval: u64, step: u64, from: u64) -> bool {
    (from == 0 || at.contains(from)) && from <= step && step - from <= interval
}

/// Is a resume point, or the start, at most so far before a step?
pub open spec fn within_reach(at: Seq<u64>, interval: u64, step: u64) -> bool {
    exists|from: u64| #[trigger] reaches(at, interval, step, from)
}

/// How far a resume point stands behind the one before it, the first one behind the start.
pub open spec fn gap(at: Seq<u64>, i: int) -> int {
    if i == 0 {
        at[0] as int
    } else {
        at[i] - at[i - 1]
    }
}

/// Does each resume point stand at most an interval behind the one before it?
pub open spec fn is_spaced(at: Seq<u64>, interval: u64) -> bool {
    forall|i: int| 0 <= i < at.len() ==> #[trigger] gap(at, i) <= interval
}

/// Is a sequence strictly increasing?
pub open spec fn increasing(at: Seq<u64>) -> bool {
    forall|i: int, j: int| 0 <= i < j < at.len() ==> at[i] < at[j]
}

/// The steps of checkpoints.
spec fn steps_of<'a>(checkpoints: Seq<(u64, Machine<'a>)>) -> Seq<u64> {
    checkpoints.map_values(|c: (u64, Machine<'a>)| c.0)
}

/// Is every checkpoint the state of the execution at its step?
spec fn genuine<'a>(
    checkpoints: Seq<(u64, Machine<'a>)>,
    image: Image,
    input: Seq<u8>,
    limits: Limits,
) -> bool {
    forall|i: int|
        0 <= i < checkpoints.len() ==> (#[trigger] checkpoints[i]).1.wf() && state_at(
            image,
            input,
            limits,
            checkpoints[i].0,
        ) == Some(checkpoints[i].1@) && !checkpoints[i].1@.finished
}

/// A party that answers by re-running its own execution.
///
/// A bisection asks this party about `log2(n)` steps. Answering each by replaying from the start
/// costs `O(n)`, so this keeps periodic full machine states and resumes from the nearest one at
/// or below the requested step. They are recorded while answering, never ahead of it, so this
/// party never steps an instruction it would not have stepped anyway.
///
/// Checkpointing is invisible to the protocol. It changes when this party does its work, never
/// what it answers: two honest workers with different budgets return identical roots for
/// identical questions.
pub struct Replay<'a> {
    image: &'a Image,
    input: Vec<u8>,
    limits: Limits,
    /// Resume points, in increasing step order. Empty until the first answer.
    checkpoints: Vec<(u64, Machine<'a>)>,
    /// Steps between kept checkpoints. Doubles whenever the budget would be exceeded.
    interval: u64,
    /// Maximum resume points to hold. Zero replays from the start every time.
    budget: usize,
    /// What has been asked and answered.
    said: Ghost<Dialogue>,
}

/// The work unit a party replays.
pub struct Unit {
    /// The module.
    pub image: Image,
    /// The input.
    pub input: Seq<u8>,
    /// The limits.
    pub limits: Limits,
}

impl<'a> View for Replay<'a> {
    type V = Unit;

    closed spec fn view(&self) -> Unit {
        Unit { image: *self.image, input: self.input@, limits: self.limits }
    }
}

impl<'a> Claimant for Replay<'a> {
    closed spec fn dialogue(&self) -> Dialogue {
        self.said@
    }

    fn root_at(&mut self, step: Step) -> (r: Result<Option<Digest>, Absent>)
        ensures
            final(self)@ == old(self)@,
            r == Ok::<_, Absent>(
                honest_root(old(self)@.image, old(self)@.input, old(self)@.limits, step.0),
            ),
            final(self).budget_of() == old(self).budget_of(),
            final(self).spacing() >= old(self).spacing(),
            old(self).budget_of() > 0 ==> final(self).spacing() >= MIN_CHECKPOINT_INTERVAL
                && final(self).spacing() >= step.0 / old(self).budget_of() as u64,
            exists|from: u64, all: Seq<u64>|
                #![trigger is_nearest(old(self).held(), step.0, from), increasing(all)]
                {
                    let interval = spaced_for(
                        old(self).spacing(),
                        step.0,
                        old(self).budget_of(),
                    );
                    &&& is_nearest(old(self).held(), step.0, from)
                    &&& increasing(all)
                    &&& all.to_set() == old(self).held().to_set().union(
                        if old(self).budget_of() == 0 {
                            Set::empty()
                        } else {
                            recorded_between(old(self)@, from, interval, step.0)
                        },
                    )
                    &&& final(self).held() == thinned(all, old(self).budget_of() as nat)
                    &&& final(self).spacing() == widened(
                        interval,
                        all.len(),
                        old(self).budget_of() as nat,
                    )
                },
            old(self).budget_of() > 0 && r->Ok_0 is Some ==> forall|s: u64|
                s <= step.0 ==> #[trigger] within_reach(
                    final(self).held(),
                    final(self).spacing(),
                    s,
                ),
    {
        proof {
            use_type_invariant(&*self);
        }
        let ghost had = self.held();
        let ghost interval = spaced_for(self.interval, step.0, self.budget);
        // Spacing is derived from the largest step ever asked for, because this party does not
        // know the execution's length and cannot ask. It only ever grows.
        if self.budget > 0 {
            let implied: u64 = step.get() / self.budget as u64;
            if implied > self.interval {
                self.interval = implied;
            }
            if MIN_CHECKPOINT_INTERVAL > self.interval {
                self.interval = MIN_CHECKPOINT_INTERVAL;
            }
        }
        assert(self.interval == interval && self.held() == had);
        let root: Option<Digest> = match self.resume_at(step.get()) {
            None => {
                proof {
                    let none = Set::<u64>::empty();
                    assert forall|s: u64| !goes_on(self@, s) by {}
                    assert(recorded_between(self@, 0, interval, step.0) =~= none);
                    lemma_nearest(had, step.0, had.len());
                    let from = choose|from: u64| is_nearest(had, step.0, from);
                    assert(recorded_between(self@, from, interval, step.0) =~= none);
                    assert(had.to_set().union(none) =~= had.to_set());
                    assert(is_nearest(had, step.0, from) && increasing(had));
                }
                None
            },
            Some((from, machine)) => {
                assert(is_nearest(had, step.0, from));
                self.replay(machine, step.get())
            },
        };
        proof {
            use_type_invariant(&*self);
            self.said = Ghost(self.said@.push((step, Ok(root))));
        }
        Ok(root)
    }
}

impl<'a> Replay<'a> {
    #[verifier::type_invariant]
    closed spec fn consistent(self) -> bool {
        &&& addressable(self.image.memory.initial_pages)
        &&& addressable(self.image.memory.maximum_pages)
        &&& genuine(self.checkpoints@, *self.image, self.input@, self.limits)
        &&& increasing(steps_of(self.checkpoints@))
        &&& is_spaced(steps_of(self.checkpoints@), self.interval)
        &&& self.interval >= 1
        &&& self.checkpoints@.len() <= self.budget
    }

    /// How many resume points may be held.
    pub closed spec fn budget_of(&self) -> usize {
        self.budget
    }

    /// Steps between resume points.
    pub closed spec fn spacing(&self) -> u64 {
        self.interval
    }

    /// The steps that resume points are held for.
    pub closed spec fn held(&self) -> Seq<u64> {
        steps_of(self.checkpoints@)
    }

    /// How many resume points are held.
    #[must_use]
    pub fn checkpoints(&self) -> (r: usize)
        ensures
            r == self.held().len(),
            r <= self.budget_of(),
    {
        proof {
            use_type_invariant(self);
        }
        self.checkpoints.len()
    }

    /// Steps between resume points.
    #[must_use]
    pub fn interval(&self) -> (r: u64)
        ensures
            r == self.spacing(),
    {
        self.interval
    }

    /// A party that will replay `image` on `input` to answer, keeping the default budget of
    /// resume points.
    #[must_use]
    pub fn new(image: &'a Image, input: Vec<u8>, limits: Limits) -> (r: Self)
        requires
            addressable(image.memory.initial_pages),
            addressable(image.memory.maximum_pages),
        ensures
            r@ == (Unit { image: *image, input: input@, limits }),
            r.dialogue() == Seq::<(Step, Answer)>::empty(),
            r.budget_of() == DEFAULT_CHECKPOINT_BUDGET,
            r.held() == Seq::<u64>::empty(),
            r.spacing() == 1,
    {
        Replay::with_checkpoint_budget(image, input, limits, DEFAULT_CHECKPOINT_BUDGET)
    }

    /// The same, holding at most `budget` resume points.
    ///
    /// `0` disables checkpointing, which is slower by a factor of `log2(n)` and answers
    /// identically.
    #[must_use]
    pub fn with_checkpoint_budget(
        image: &'a Image,
        input: Vec<u8>,
        limits: Limits,
        budget: usize,
    ) -> (r: Self)
        requires
            addressable(image.memory.initial_pages),
            addressable(image.memory.maximum_pages),
        ensures
            r@ == (Unit { image: *image, input: input@, limits }),
            r.dialogue() == Seq::<(Step, Answer)>::empty(),
            r.budget_of() == budget,
            r.held() == Seq::<u64>::empty(),
            r.spacing() == 1,
    {
        let r = Replay {
            image,
            input,
            limits,
            checkpoints: Vec::new(),
            interval: 1,
            budget,
            said: Ghost(Seq::empty()),
        };
        assert(r.held() =~= Seq::empty());
        r
    }

    /// The latest recorded state at or before `step`, or a fresh machine.
    #[must_use]
    pub fn resume_at(&self, step: u64) -> (r: Option<(u64, Machine<'a>)>)
        ensures
            match r {
                None => started(self@.image, self@.input, self@.limits) is Err,
                Some((from, m)) => {
                    &&& m.wf()
                    &&& m@.steps == from <= step
                    &&& state_at(self@.image, self@.input, self@.limits, from) == Some(m@)
                    &&& is_nearest(self.held(), step, from)
                    &&& !m@.finished
                },
            },
    {
        proof {
            use_type_invariant(self);
        }
        let mut i: usize = self.checkpoints.len();
        while i > 0
            invariant
                i <= self.checkpoints@.len(),
                genuine(self.checkpoints@, *self.image, self.input@, self.limits),
                increasing(steps_of(self.checkpoints@)),
                forall|k: int|
                    i <= k < self.checkpoints@.len() ==> #[trigger] self.held()[k] > step,
            decreases i,
        {
            i = i - 1;
            assert(self.held()[i as int] == self.checkpoints@[i as int].0);
            if self.checkpoints[i].0 <= step {
                proof {
                    lemma_state_steps(
                        *self.image,
                        self.input@,
                        self.limits,
                        self.checkpoints@[i as int].0,
                    );
                }
                proof {
                    let from = self.checkpoints@[i as int].0;
                    assert(self.held().contains(from));
                    assert forall|other: u64| #[trigger] self.held().contains(other) && other
                        <= step implies other <= from by {
                        let k = choose|k: int|
                            0 <= k < self.held().len() && self.held()[k] == other;
                        if k > i {
                            assert(self.held()[k] > step);
                        } else if k < i {
                            assert(self.held()[k] < self.held()[i as int]);
                        }
                    }
                }
                return Some((self.checkpoints[i].0, self.checkpoints[i].1.clone()));
            }
        }
        let input: Vec<u8> = vstd::slice::slice_to_vec(self.input.as_slice());
        match Machine::new(self.image, input, self.limits) {
            Ok(machine) => {
                proof {
                    lemma_state_steps(*self.image, self.input@, self.limits, 0);
                    reveal(MachineView::entered);
                    assert forall|other: u64| #[trigger] self.held().contains(other) && other
                        <= step implies other <= 0 by {
                        let k = choose|k: int|
                            0 <= k < self.held().len() && self.held()[k] == other;
                        assert(self.held()[k] > step);
                    }
                }
                Some((0, machine))
            },
            Err(_) => None,
        }
    }
}

/// The state at a step has executed that many instructions.
proof fn lemma_state_steps(image: Image, input: Seq<u8>, limits: Limits, step: u64)
    ensures
        state_at(image, input, limits, step) matches Some(m) ==> m.steps == step,
{
    if let Ok(m) = started(image, input, limits) {
        reveal(MachineView::entered);
        lemma_after_steps(m, step as nat);
    }
}

proof fn lemma_after_steps(m: MachineView, n: nat)
    requires
        m.steps + n <= u64::MAX,
    ensures
        m.after(n) matches Some(s) ==> s.steps == m.steps + n,
    decreases n,
{
    if n > 0 {
        lemma_after_steps(m, (n - 1) as nat);
        if let Some(s) = m.after((n - 1) as nat) {
            law_a_step_is_one_instruction(s);
        }
    }
}

/// Once execution has ended it does not go on.
proof fn lemma_after_ended(m: MachineView, n: nat, k: nat)
    requires
        n <= k,
        m.after(n) is None,
    ensures
        m.after(k) is None,
    decreases k - n,
{
    if n < k {
        lemma_after_ended(m, n, (k - 1) as nat);
    }
}

/// The entries at even positions, from one on.
spec fn evens_from<T>(s: Seq<T>, i: int) -> Seq<T>
    decreases s.len() - i,
{
    if i >= s.len() {
        Seq::empty()
    } else if i % 2 == 0 {
        seq![s[i]] + evens_from(s, i + 1)
    } else {
        evens_from(s, i + 1)
    }
}

proof fn lemma_evens<T>(s: Seq<T>, i: int)
    requires
        0 <= i <= s.len(),
    ensures
        evens_from(s, i).len() == (s.len() + 1) / 2 - (i + 1) / 2,
        forall|k: int|
            0 <= k < evens_from(s, i).len() ==> #[trigger] evens_from(s, i)[k] == s[2 * ((i + 1)
                / 2 + k)],
    decreases s.len() - i,
{
    if i < s.len() {
        lemma_evens(s, i + 1);
        if i % 2 == 0 {
            assert forall|k: int| 0 <= k < evens_from(s, i).len() implies #[trigger] evens_from(
                s,
                i,
            )[k] == s[2 * ((i + 1) / 2 + k)] by {
                if k > 0 {
                    assert(evens_from(s, i)[k] == evens_from(s, i + 1)[k - 1]);
                }
            }
        }
    }
}

/// Keep every other checkpoint.
fn halve<'a>(checkpoints: &mut Vec<(u64, Machine<'a>)>)
    ensures
        final(checkpoints)@.len() == (old(checkpoints)@.len() + 1) / 2,
        forall|i: int|
            0 <= i < final(checkpoints)@.len() ==> #[trigger] final(checkpoints)@[i] == old(
                checkpoints,
            )@[2 * i],
{
    let ghost all = checkpoints@;
    let mut i: usize = checkpoints.len();
    assert(checkpoints@ =~= all.take(i as int) + evens_from(all, i as int));
    while i > 0
        invariant
            i <= all.len(),
            checkpoints@ == all.take(i as int) + evens_from(all, i as int),
        decreases i,
    {
        i = i - 1;
        if i % 2 == 1 {
            let _ = checkpoints.remove(i);
        }
        assert(checkpoints@ =~= all.take(i as int) + evens_from(all, i as int));
    }
    proof {
        lemma_evens(all, 0);
        assert(checkpoints@ =~= evens_from(all, 0));
    }
}

/// Put one checkpoint in its place, unless its step has one already.
fn place_checkpoint<'a>(checkpoints: &mut Vec<(u64, Machine<'a>)>, new: (u64, Machine<'a>))
    requires
        increasing(steps_of(old(checkpoints)@)),
    ensures
        increasing(steps_of(final(checkpoints)@)),
        steps_of(final(checkpoints)@).to_set() == steps_of(old(checkpoints)@).to_set().insert(new.0),
        forall|i: int|
            0 <= i < final(checkpoints)@.len() ==> #[trigger] final(checkpoints)@[i] == new || old(
                checkpoints,
            )@.contains(final(checkpoints)@[i]),
{
    let ghost before = checkpoints@;
    let ghost at = steps_of(before);
    let step: u64 = new.0;
    let mut i: usize = checkpoints.len();
    while i > 0 && checkpoints[i - 1].0 > step
        invariant
            i <= checkpoints@.len(),
            checkpoints@ == before,
            at == steps_of(before),
            increasing(at),
            forall|k: int| i <= k < at.len() ==> #[trigger] at[k] > step,
        decreases i,
    {
        assert(at[i - 1] == before[i - 1].0);
        i = i - 1;
    }
    if i > 0 {
        assert(at[i - 1] == before[i - 1].0);
    }
    if i > 0 && checkpoints[i - 1].0 == step {
        proof {
            assert(at.contains(step)) by {
                assert(at[i - 1] == step);
            }
            assert(at.to_set().insert(step) =~= at.to_set());
            assert forall|k: int| 0 <= k < checkpoints@.len() implies before.contains(
                #[trigger] checkpoints@[k],
            ) by {
                assert(before[k] == checkpoints@[k]);
            }
        }
        return;
    }
    checkpoints.insert(i, new);
    proof {
        let now = steps_of(checkpoints@);
        assert(now =~= at.insert(i as int, step));
        assert forall|x: int, y: int| 0 <= x < y < now.len() implies now[x] < now[y] by {
            if x < i {
                assert(at[x] <= at[i - 1]);
            }
        }
        assert forall|s: u64| #[trigger] now.contains(s) <==> (s == step || at.contains(s)) by {
            if now.contains(s) {
                let k = choose|k: int| 0 <= k < now.len() && now[k] == s;
                if k < i {
                    assert(at[k] == s);
                } else if k > i {
                    assert(at[k - 1] == s);
                }
            }
            if at.contains(s) {
                let k = choose|k: int| 0 <= k < at.len() && at[k] == s;
                if k < i {
                    assert(now[k] == s);
                } else {
                    assert(now[k + 1] == s);
                }
            }
            assert(now[i as int] == step);
        }
        assert(now.to_set() =~= at.to_set().insert(step));
        assert forall|k: int| 0 <= k < checkpoints@.len() implies #[trigger] checkpoints@[k] == new
            || before.contains(checkpoints@[k]) by {
            if k < i {
                assert(before[k] == checkpoints@[k]);
            } else if k > i {
                assert(before[k - 1] == checkpoints@[k]);
            }
        }
    }
}

/// Do steps follow one another at an interval, from one that is not among them?
spec fn follows(at: Seq<u64>, from: u64, interval: u64) -> bool {
    forall|k: int| 0 <= k < at.len() ==> (#[trigger] at[k]) == from + (k + 1) * interval
}

proof fn lemma_nearest(at: Seq<u64>, step: u64, n: nat)
    requires
        increasing(at),
        n <= at.len(),
        forall|k: int| n <= k < at.len() ==> #[trigger] at[k] > step,
    ensures
        exists|from: u64| is_nearest(at, step, from),
    decreases n,
{
    if n == 0 {
        assert forall|other: u64| #[trigger] at.contains(other) && other <= step implies other
            <= 0 by {
            let k = choose|k: int| 0 <= k < at.len() && at[k] == other;
            assert(at[k] > step);
        }
        assert(is_nearest(at, step, 0));
    } else if at[n - 1] > step {
        lemma_nearest(at, step, (n - 1) as nat);
    } else {
        let from = at[n - 1];
        assert(at.contains(from));
        assert forall|other: u64| #[trigger] at.contains(other) && other <= step implies other
            <= from by {
            let k = choose|k: int| 0 <= k < at.len() && at[k] == other;
            if k >= n {
                assert(at[k] > step);
            } else if k < n - 1 {
                assert(at[k] < at[n - 1]);
            }
        }
        assert(is_nearest(at, step, from));
    }
}

/// The one before a new resume point, in the sequence that it comes from.
proof fn lemma_before(
    had: Seq<u64>,
    new: Seq<u64>,
    from: u64,
    interval: u64,
    x: u64,
) -> (y: u64)
    requires
        increasing(had),
        is_spaced(had, interval),
        follows(new, from, interval),
        interval >= 1,
        from == 0 || had.contains(from),
        had.contains(x) || new.contains(x),
    ensures
        y == 0 || had.contains(y) || new.contains(y),
        y < x || x == 0,
        x - y <= interval,
{
    if had.contains(x) {
        let k = choose|k: int| 0 <= k < had.len() && had[k] == x;
        assert(gap(had, k) <= interval);
        if k == 0 {
            0
        } else {
            assert(had.contains(had[k - 1]));
            assert(had[k - 1] < had[k]);
            had[k - 1]
        }
    } else {
        let k = choose|k: int| 0 <= k < new.len() && new[k] == x;
        assert((k + 1) * interval == k * interval + interval) by (nonlinear_arith);
        if k == 0 {
            from
        } else {
            assert(new[k - 1] == from + k * interval);
            assert(new.contains(new[k - 1]));
            new[k - 1]
        }
    }
}

/// Resume points at intervals, among others that are no further apart, are no further apart.
proof fn lemma_joined(
    all: Seq<u64>,
    had: Seq<u64>,
    new: Seq<u64>,
    from: u64,
    interval: u64,
)
    requires
        increasing(all),
        increasing(had),
        is_spaced(had, interval),
        follows(new, from, interval),
        interval >= 1,
        from == 0 || had.contains(from),
        all.to_set() == had.to_set().union(new.to_set()),
    ensures
        is_spaced(all, interval),
{
    assert forall|y: u64| #[trigger] all.contains(y) == (had.contains(y) || new.contains(y)) by {
        assert(all.to_set().contains(y) == all.contains(y));
        assert(had.to_set().contains(y) == had.contains(y));
        assert(new.to_set().contains(y) == new.contains(y));
    }
    assert forall|i: int| 0 <= i < all.len() implies #[trigger] gap(all, i) <= interval by {
        let x = all[i];
        assert(all.contains(x));
        let y = lemma_before(had, new, from, interval, x);
        if y != 0 {
            assert(all.contains(y));
            let j = choose|j: int| 0 <= j < all.len() && all[j] == y;
            if j > i {
                assert(all[i] < all[j]);
            } else if j < i - 1 {
                assert(all[j] < all[i - 1]);
            }
        }
    }
}

proof fn lemma_halved(at: Seq<u64>, interval: u64, wider: u64)
    requires
        increasing(at),
        is_spaced(at, interval),
        wider == u64::MAX || wider == 2 * interval,
    ensures
        increasing(halved(at)),
        is_spaced(halved(at), wider),
{
    let h = halved(at);
    assert forall|i: int, j: int| 0 <= i < j < h.len() implies h[i] < h[j] by {
        assert(at[2 * i] < at[2 * j]);
    }
    assert forall|i: int| 0 <= i < h.len() implies #[trigger] gap(h, i) <= wider by {
        let (x, y) = (2 * i, 2 * i - 1);
        assert(h[i] == at[x]);
        if i == 0 {
            assert(gap(at, 0) <= interval);
        } else {
            assert(h[i - 1] == at[y - 1]);
            assert(gap(at, y) <= interval);
            assert(gap(at, x) <= interval);
        }
    }
}

proof fn lemma_halved_reach(at: Seq<u64>, interval: u64, wider: u64, s: u64)
    requires
        increasing(at),
        is_spaced(at, interval),
        wider == u64::MAX || wider == 2 * interval,
        wider >= interval,
        within_reach(at, interval, s),
    ensures
        within_reach(halved(at), wider, s),
{
    let h = halved(at);
    let from = choose|from: u64| reaches(at, interval, s, from);
    if from == 0 {
        assert(reaches(h, wider, s, 0));
    } else {
        let k = choose|k: int| 0 <= k < at.len() && at[k] == from;
        let e = k / 2;
        assert(0 <= e < h.len());
        assert(h[e] == at[2 * e]);
        assert(h.contains(h[e]));
        if k % 2 == 1 {
            assert(2 * e == k - 1);
            assert(gap(at, k) <= interval);
            assert(at[k - 1] < at[k]);
        }
        assert(reaches(h, wider, s, h[e]));
    }
}

proof fn lemma_thinned(at: Seq<u64>, interval: u64, budget: nat, s: u64)
    requires
        increasing(at),
        is_spaced(at, interval),
    ensures
        increasing(thinned(at, budget)),
        is_spaced(thinned(at, budget), widened(interval, at.len(), budget)),
        within_reach(at, interval, s) ==> within_reach(
            thinned(at, budget),
            widened(interval, at.len(), budget),
            s,
        ),
    decreases at.len(),
{
    if budget > 0 && at.len() > budget {
        let wider = if 2 * interval > u64::MAX {
            u64::MAX
        } else {
            (2 * interval) as u64
        };
        lemma_halved(at, interval, wider);
        if within_reach(at, interval, s) {
            lemma_halved_reach(at, interval, wider, s);
        }
        lemma_thinned(halved(at), wider, budget, s);
    }
}

/// What was recorded is what there was to record.
proof fn lemma_recorded(
    unit: Unit,
    given: Seq<u64>,
    n: nat,
    from: u64,
    interval: u64,
    step: u64,
    reached: u64,
)
    requires
        interval >= 1,
        n == given.len(),
        follows(given, from, interval),
        forall|k: int|
            0 <= k < n ==> (#[trigger] given[k]) < step && goes_on(unit, given[k]),
        reached == step || forall|s: u64| reached < s ==> !#[trigger] goes_on(unit, s),
        reached == step ==> from + (n + 1) * interval >= step,
        reached != step ==> from + (n + 1) * interval > reached,
    ensures
        given.to_set() == recorded_between(unit, from, interval, step),
{
    let set = recorded_between(unit, from, interval, step);
    assert forall|s: u64| #[trigger] given.to_set().contains(s) <==> set.contains(s) by {
        if given.contains(s) {
            let k = choose|k: int| 0 <= k < n && given[k] == s;
            assert((k + 1) * interval >= interval) by (nonlinear_arith)
                requires
                    k >= 0,
                    interval >= 1,
            ;
            vstd::arithmetic::div_mod::lemma_mod_multiples_basic(k + 1, interval as int);
        }
        if set.contains(s) {
            let m = (s - from) / interval as int;
            vstd::arithmetic::div_mod::lemma_fundamental_div_mod(s - from, interval as int);
            assert(interval * m == m * interval) by (nonlinear_arith);
            assert(m >= 1) by (nonlinear_arith)
                requires
                    m * interval == s - from,
                    s > from,
                    interval >= 1,
            ;
            assert(s < from + (n + 1) * interval) by {
                if reached != step && s > reached {
                    assert(!goes_on(unit, s));
                }
            }
            assert(m < n + 1) by (nonlinear_arith)
                requires
                    m * interval < (n + 1) * interval,
                    interval >= 1,
            ;
            assert(given[m - 1] == from + m * interval);
            assert(given.contains(s));
        }
    }
    assert(given.to_set() =~= set);
}

/// If one step is within reach, and resume points stand at intervals, so is every step before it.
proof fn lemma_reach(at: Seq<u64>, interval: u64, step: u64, s: u64)
    requires
        increasing(at),
        is_spaced(at, interval),
        within_reach(at, interval, step),
        s <= step,
    ensures
        within_reach(at, interval, s),
{
    lemma_nearest(at, s, at.len());
    let from = choose|from: u64| is_nearest(at, s, from);
    let reached = choose|from: u64| reaches(at, interval, step, from);
    if reached > s {
        // The first one past the step is at most an interval behind the nearest.
        assert(at.contains(reached));
        let k = choose|k: int| 0 <= k < at.len() && at[k] == reached;
        lemma_gap(at, interval, s, from, k);
    } else if reached != 0 {
        assert(at.contains(reached) && reached <= s);
    }
    assert(reaches(at, interval, s, from));
}

/// Every step of an answer is within reach afterwards.
proof fn lemma_replayed(
    all: Seq<u64>,
    had: Seq<u64>,
    given: Seq<u64>,
    from: u64,
    interval: u64,
    step: u64,
    budget: nat,
)
    requires
        increasing(all),
        is_spaced(all, interval),
        all.to_set() == had.to_set().union(given.to_set()),
        follows(given, from, interval),
        from == 0 || had.contains(from),
        from <= step <= from + (given.len() + 1) * interval,
        forall|k: int| 0 <= k < given.len() ==> (#[trigger] given[k]) < step,
    ensures
        forall|s: u64|
            s <= step ==> #[trigger] within_reach(
                thinned(all, budget),
                widened(interval, all.len(), budget),
                s,
            ),
{
    let n = given.len() as int;
    assert((n + 1) * interval == n * interval + interval) by (nonlinear_arith);
    if n == 0 {
        if from != 0 {
            assert(had.to_set().contains(from));
            assert(all.to_set().contains(from));
        }
        assert(reaches(all, interval, step, from));
    } else {
        let last = given[n - 1];
        assert(last == from + n * interval);
        assert(given.to_set().contains(last));
        assert(all.to_set().contains(last));
        assert(reaches(all, interval, step, last));
    }
    lemma_thinned(all, interval, budget, step);
    assert forall|s: u64| s <= step implies #[trigger] within_reach(
        thinned(all, budget),
        widened(interval, all.len(), budget),
        s,
    ) by {
        lemma_reach(thinned(all, budget), widened(interval, all.len(), budget), step, s);
    }
}

proof fn lemma_gap(at: Seq<u64>, interval: u64, s: u64, from: u64, k: int)
    requires
        increasing(at),
        is_spaced(at, interval),
        is_nearest(at, s, from),
        0 <= k < at.len(),
        at[k] > s,
    ensures
        s - from <= interval,
    decreases k,
{
    assert(gap(at, k) <= interval);
    if k > 0 {
        if at[k - 1] > s {
            lemma_gap(at, interval, s, from, k - 1);
        } else {
            assert(at.contains(at[k - 1]));
        }
    }
}

impl<'a> Replay<'a> {
    /// Fold newly recorded states into the kept set, thinning if that exceeds the budget.
    ///
    /// Thinning drops every other checkpoint, which roughly doubles the spacing, so the interval
    /// is doubled to match. Uneven spacing is tolerable: a resume point that is closer than the
    /// interval only makes an answer cheaper.
    fn absorb(&mut self, recorded: Vec<(u64, Machine<'a>)>, Ghost(from): Ghost<u64>)
        requires
            follows(steps_of(recorded@), from, old(self).interval),
            from == 0 || old(self).held().contains(from),
            genuine(recorded@, old(self)@.image, old(self)@.input, old(self)@.limits),
            old(self).budget == 0 ==> recorded@.len() == 0,
        ensures
            final(self).interval >= old(self).interval,
            final(self)@ == old(self)@,
            final(self).dialogue() == old(self).dialogue(),
            final(self).budget == old(self).budget,
            exists|all: Seq<u64>| #[trigger]
                increasing(all) && all.to_set() == steps_of(old(self).checkpoints@).to_set().union(
                    steps_of(recorded@).to_set(),
                ) && steps_of(final(self).checkpoints@) == thinned(all, old(self).budget as nat)
                    && final(self).interval == widened(
                    old(self).interval,
                    all.len(),
                    old(self).budget as nat,
                ) && is_spaced(all, old(self).interval),
    {
        proof {
            use_type_invariant(&*self);
        }
        let ghost unit = self@;
        let ghost given = recorded@;
        let ghost had = steps_of(self.checkpoints@);
        let mut kept: Vec<(u64, Machine<'a>)> = Vec::new();
        std::mem::swap(&mut kept, &mut self.checkpoints);
        let mut rest: Vec<(u64, Machine<'a>)> = recorded;
        proof {
            assert(given.skip(given.len() as int) =~= Seq::empty());
            assert(steps_of(given.skip(given.len() as int)).to_set() =~= Set::empty());
            assert(had.to_set().union(Set::empty()) =~= had.to_set());
        }
        while rest.len() > 0
            invariant
                rest@ == given.take(rest@.len() as int),
                rest@.len() <= given.len(),
                genuine(given, unit.image, unit.input, unit.limits),
                genuine(kept@, unit.image, unit.input, unit.limits),
                increasing(steps_of(kept@)),
                given.len() == 0 ==> kept@.len() == had.len(),
                steps_of(kept@).to_set() == had.to_set().union(
                    steps_of(given.skip(rest@.len() as int)).to_set(),
                ),
            decreases rest@.len(),
        {
            if let Some(entry) = rest.pop() {
                let ghost before = kept@;
                let ghost n = rest@.len() as int;
                assert(entry == given[n]);
                place_checkpoint(&mut kept, entry);
                proof {
                    assert forall|i: int| 0 <= i < kept@.len() implies (#[trigger] kept@[i]).1.wf()
                        && state_at(unit.image, unit.input, unit.limits, kept@[i].0) == Some(
                        kept@[i].1@,
                    ) && !kept@[i].1@.finished by {
                        if kept@[i] != entry {
                            let k = choose|k: int| 0 <= k < before.len() && before[k] == kept@[i];
                            assert(before[k] == kept@[i]);
                        }
                    }
                    let (x, y) = (steps_of(given.skip(n)), steps_of(given.skip(n + 1)));
                    assert(x =~= seq![entry.0] + y);
                    assert forall|s: u64| #[trigger] x.contains(s) <==> (s == entry.0 || y.contains(s)) by {
                        assert(x[0] == entry.0);
                        if x.contains(s) {
                            let k = choose|k: int| 0 <= k < x.len() && x[k] == s;
                            if k > 0 {
                                assert(y[k - 1] == s);
                            }
                        }
                        if y.contains(s) {
                            let k = choose|k: int| 0 <= k < y.len() && y[k] == s;
                            assert(x[k + 1] == s);
                        }
                    }
                    assert(had.to_set().union(x.to_set()) =~= had.to_set().union(y.to_set()).insert(
                        entry.0,
                    ));
                }
            }
        }
        let ghost all = steps_of(kept@);
        proof {
            assert(given.skip(0) =~= given);
            lemma_joined(all, had, steps_of(given), from, old(self).interval);
            lemma_thinned(all, old(self).interval, old(self).budget as nat, 0);
        }
        let budget: usize = self.budget;
        let mut interval: u64 = self.interval;
        while budget > 0 && kept.len() > budget
            invariant
                genuine(kept@, unit.image, unit.input, unit.limits),
                increasing(steps_of(kept@)),
                interval >= old(self).interval,
                budget == 0 ==> kept@.len() == 0,
                thinned(steps_of(kept@), budget as nat) == thinned(all, budget as nat),
                widened(interval, kept@.len(), budget as nat) == widened(
                    old(self).interval,
                    all.len(),
                    budget as nat,
                ),
            decreases kept@.len(),
        {
            let ghost before = kept@;
            halve(&mut kept);
            interval = interval.saturating_add(interval);
            proof {
                assert(steps_of(kept@) =~= halved(steps_of(before)));
                assert forall|i: int, j: int| 0 <= i < j < steps_of(kept@).len() implies steps_of(
                    kept@,
                )[i] < steps_of(kept@)[j] by {
                    assert(steps_of(before)[2 * i] < steps_of(before)[2 * j]);
                }
            }
        }
        assert(increasing(all));
        self.interval = interval;
        self.checkpoints = kept;
    }

    /// Replay from a recorded state to a step, keeping resume points on the way.
    fn replay(&mut self, from: Machine<'a>, target: u64) -> (r: Option<Digest>)
        requires
            from.wf(),
            from@.steps <= target,
            !from@.finished,
            from@.steps == 0 || old(self).held().contains(from@.steps),
            state_at(old(self)@.image, old(self)@.input, old(self)@.limits, from@.steps) == Some(
                from@,
            ),
        ensures
            final(self)@ == old(self)@,
            final(self).dialogue() == old(self).dialogue(),
            r == honest_root(old(self)@.image, old(self)@.input, old(self)@.limits, target),
            final(self).budget == old(self).budget,
            final(self).interval >= old(self).interval,
            exists|all: Seq<u64>| #[trigger]
                increasing(all) && all.to_set() == old(self).held().to_set().union(
                    if old(self).budget == 0 {
                        Set::empty()
                    } else {
                        recorded_between(old(self)@, from@.steps, old(self).interval, target)
                    },
                ) && final(self).held() == thinned(all, old(self).budget as nat)
                    && final(self).interval == widened(
                    old(self).interval,
                    all.len(),
                    old(self).budget as nat,
                ),
            old(self).budget > 0 && r is Some ==> forall|s: u64|
                s <= target ==> #[trigger] within_reach(
                    final(self).held(),
                    final(self).interval,
                    s,
                ),
    {
        proof {
            use_type_invariant(&*self);
        }
        let ghost unit = self@;
        let ghost start = from@.steps;
        let ghost interval = self.interval;
        let mut machine = from;
        let mut recorded: Vec<(u64, Machine<'a>)> = Vec::new();
        let mut next_record: u64 = if self.budget == 0 {
            u64::MAX
        } else {
            machine.steps().saturating_add(self.interval)
        };
        let mut ended = false;
        let ghost mut reached: u64 = start;
        assert((0 + 1) * interval == interval) by (nonlinear_arith);
        while !ended && machine.steps() < target
            invariant
                self@ == unit,
                unit == old(self)@,
                self.dialogue() == old(self).dialogue(),
                self.budget == old(self).budget,
                self.interval == old(self).interval,
                self.held() == old(self).held(),
                interval == self.interval,
                interval >= 1,
                !ended ==> start <= machine@.steps,
                self.budget > 0 ==> follows(steps_of(recorded@), start, interval)
                    && next_record == (if start + (recorded@.len() + 1) * interval > u64::MAX {
                    u64::MAX as int
                } else {
                    start + (recorded@.len() + 1) * interval
                }) && (!ended ==> machine@.steps <= next_record),
                forall|k: int|
                    0 <= k < recorded@.len() ==> (#[trigger] recorded@[k]).0 < target,
                !ended && machine@.steps < target ==> !machine@.finished,
                ended ==> forall|s: u64| reached < s ==> !#[trigger] goes_on(unit, s),
                ended ==> reached < next_record && reached < target,
                self.budget == 0 ==> next_record == u64::MAX && recorded@.len() == 0,
                machine.wf(),
                !ended ==> machine@.steps <= target,
                genuine(recorded@, unit.image, unit.input, unit.limits),
                !ended ==> state_at(unit.image, unit.input, unit.limits, machine@.steps) == Some(
                    machine@,
                ),
                ended ==> state_at(unit.image, unit.input, unit.limits, target) is None,
            decreases
                (if ended {
                    0int
                } else {
                    target - machine@.steps + 1
                }),
        {
            let now: u64 = machine.steps();
            if now >= next_record {
                let ghost before = recorded@;
                recorded.push((now, machine.clone()));
                next_record = now.saturating_add(self.interval);
                proof {
                    let n = before.len() as int;
                    assert((n + 2) * interval == (n + 1) * interval + interval)
                        by (nonlinear_arith);
                    assert(steps_of(recorded@) =~= steps_of(before).push(now));
                }
            }
            proof {
                reached = now;
            }
            let ghost before = machine@;
            let ghost whole = started(unit.image, unit.input, unit.limits)->Ok_0;
            proof {
                law_a_step_is_one_instruction(before);
            }
            match machine.step() {
                // Execution ended. If it ended exactly here, this is the final state; otherwise
                // the requested step is past the end.
                Ok(Progress::Finished) => {
                    ended = machine.steps() != target;
                },
                Ok(_) => {},
                // A trapped execution has no state at or after the trap.
                Err(_) => {
                    ended = true;
                },
            }
            proof {
                if ended {
                    let next = whole.after((before.steps + 1) as nat);
                    if next is None {
                        lemma_after_ended(whole, (before.steps + 1) as nat, target as nat);
                    } else {
                        assert(next == Some(machine@));
                        assert(machine@.finished);
                        assert(whole.after((before.steps + 2) as nat) is None);
                        lemma_after_ended(whole, (before.steps + 2) as nat, target as nat);
                    }
                    assert forall|s: u64| reached < s implies !#[trigger] goes_on(unit, s) by {
                        if next is None {
                            lemma_after_ended(whole, (before.steps + 1) as nat, s as nat);
                        } else if s > before.steps + 1 {
                            lemma_after_ended(whole, (before.steps + 2) as nat, s as nat);
                        }
                    }
                }
            }
        }
        let result = if ended {
            None
        } else {
            Some(machine.commit().root())
        };
        let ghost given = steps_of(recorded@);
        let ghost had = self.held();
        proof {
            if self.budget > 0 {
                lemma_recorded(
                    unit,
                    given,
                    recorded@.len(),
                    start,
                    interval,
                    target,
                    if ended {
                        reached
                    } else {
                        target
                    },
                );
            } else {
                assert(given =~= Seq::empty());
                assert(given.to_set() =~= Set::empty());
            }
        }
        self.absorb(recorded, Ghost(start));
        proof {
            let all = choose|all: Seq<u64>| #[trigger]
                increasing(all) && all.to_set() == had.to_set().union(given.to_set())
                    && steps_of(self.checkpoints@) == thinned(all, self.budget as nat)
                    && self.interval == widened(interval, all.len(), self.budget as nat)
                    && is_spaced(all, interval);
            if self.budget > 0 && result is Some {
                lemma_replayed(all, had, given, start, interval, target, self.budget as nat);
            }
        }
        result
    }
}

/// Whoever hands over the witness, and whatever is in it, the judgment is the one that replaying
/// the whole execution would give: it rests on what the disputed instruction really produces
/// there. Otherwise the witness is refused, or what is hashed for it collides with what is hashed
/// for the state.
///
/// Functions too long for a branch target to point past are left out, and lists too long to be
/// counted.
#[verifier::spinoff_prover]
pub proof fn law_no_witness_changes_the_judgment(
    image: Image,
    input: Seq<u8>,
    limits: Limits,
    step: u64,
    verdict: Verdict,
    w: WitnessView,
)
    requires
        addressable(image.memory.maximum_pages),
        step < u64::MAX,
        state_at(image, input, limits, step) matches Some(a) && !a.finished
            && verdict.agreed_root == Some(a.root()) && countable(
            a.globals,
            a.stack,
            a.frames,
            a.dropped_data,
            a.dropped_elements,
        ),
        countable(w.globals, w.operand_stack, w.frames, w.dropped_data, w.dropped_elements),
        forall|p: int| 0 <= p < image.functions@.len() ==> is_short(#[trigger] image.functions@[p]),
    ensures
        adjudicated(image, verdict, w, input, limits) matches Ok(j) ==> j == judged(
            honest_root(image, input, limits, (step + 1) as u64),
            verdict.first_claim,
            verdict.second_claim,
        ) || collision_among(hashed(state_at(image, input, limits, step)->0, w)),
{
    let a = state_at(image, input, limits, step)->0;
    law_every_state_reached_is_running(image, input, limits, step as nat);
    if adjudicated(image, verdict, w, input, limits) is Ok && !collision_among(hashed(a, w)) {
        law_the_root_binds_a_witness(a, w);
        law_a_restored_machine_is_a_twin(a, w);
        let b = restored(image, w, input, limits)->Ok_0;
        law_a_rebuilt_machine_follows(a, b);
        if b.stepped().1 is Ok {
            law_twins_have_one_root(a.stepped().0, b.stepped().0);
        }
    }
}

/// Labels that are as execution leaves them fit.
proof fn lemma_placed_frames_fit(image: Image, frames: Seq<FrameView>)
    requires
        frames_placed(image, frames),
    ensures
        frames_fit(image, frames),
{
    assert forall|i: int| 0 <= i < frames.len() implies frame_fits(image, #[trigger] frames[i]) by {
        assert(frame_placed(image, frames[i]));
        assert forall|j: int| 0 <= j < frames[i].labels.len() implies label_fits_in(
            image,
            frames[i].function,
            #[trigger] frames[i].labels[j],
        ) by {
            assert(label_placed_in(image, frames[i].function, frames[i].labels[j]));
        }
    }
}

/// A dispute about an execution is always settled by the witness an honest party takes for the
/// disputed instruction, and a party that claims what the instruction really produces there is
/// never found to be lying, while one that claims anything else is.
///
/// An instruction that touches a page above the ceiling is left out, as there may be in a memory
/// that starts with more pages than its ceiling allows.
pub proof fn law_an_honest_witness_settles(
    image: Image,
    input: Seq<u8>,
    limits: Limits,
    step: u64,
    verdict: Verdict,
    pages: Seq<u32>,
)
    requires
        addressable(image.memory.maximum_pages),
        step < u64::MAX,
        state_at(image, input, limits, step) matches Some(a) && !a.finished
            && verdict.agreed_root == Some(a.root()) && lists(pages, a.next_pages())
            && touches_committed(a),
        verdict.first_claim != verdict.second_claim,
    ensures
        ({
            let a = state_at(image, input, limits, step)->0;
            let truth = honest_root(image, input, limits, (step + 1) as u64);
            let r = adjudicated(image, verdict, a.witness(pages), input, limits);
            &&& r == Ok::<_, AdjudicationErrorView>(
                judged(truth, verdict.first_claim, verdict.second_claim),
            )
            &&& verdict.first_claim == truth ==> r == Ok::<_, AdjudicationErrorView>(
                Judgment::Guilty { liar: Party::Second },
            )
            &&& verdict.second_claim == truth ==> r == Ok::<_, AdjudicationErrorView>(
                Judgment::Guilty { liar: Party::First },
            )
        }),
{
    let a = state_at(image, input, limits, step)->0;
    law_every_state_reached_is_running(image, input, limits, step as nat);
    law_a_witness_commits_to_its_state(a, pages);
    law_an_honest_witness_suffices(a, pages);
    lemma_placed_frames_fit(image, a.frames);
    let b = restored(image, a.witness(pages), input, limits)->Ok_0;
    law_a_rebuilt_machine_follows(a, b);
    if b.stepped().1 is Ok {
        law_twins_have_one_root(a.stepped().0, b.stepped().0);
    }
}

/// Was every question answered?
pub open spec fn is_answered(d: Dialogue) -> bool {
    forall|i: int| 0 <= i < d.len() ==> (#[trigger] d[i]).1 is Ok
}

/// Was every question answered but the last, about this step?
pub open spec fn is_silent_at(d: Dialogue, step: Step) -> bool {
    &&& d.len() > 0
    &&& d.last().0 == step
    &&& d.last().1 is Err
    &&& is_answered(d.drop_last())
}

proof fn lemma_first_answered(d: Dialogue, step: Step)
    requires
        d.len() > 0,
        d[0].1 is Ok,
    ensures
        is_answered(d.drop_first()) ==> is_answered(d),
        is_silent_at(d.drop_first(), step) ==> is_silent_at(d, step),
{
    let rest = d.drop_first();
    assert forall|i: int| 1 <= i < d.len() implies #[trigger] d[i] == rest[i - 1] by {}
    if is_silent_at(rest, step) {
        assert(d.last() == rest.last());
        assert forall|i: int| 0 <= i < d.drop_last().len() implies (#[trigger] d.drop_last()[i]).1
            is Ok by {
            assert(d.drop_last()[i] == d[i]);
            if i > 0 {
                assert(rest.drop_last()[i - 1] == rest[i - 1]);
            }
        }
    }
}

/// Does a result blame silence on the party that was silent, and only then?
pub open spec fn blames_silence(a: Dialogue, b: Dialogue, r: Result<Verdict, DisputeError>) -> bool {
    match r {
        Err(DisputeError::Abandoned { by: Party::First, at, .. }) => is_silent_at(a, at)
            && is_answered(b),
        Err(DisputeError::Abandoned { by: Party::Second, at, .. }) => is_silent_at(b, at)
            && is_answered(a),
        _ => is_answered(a) && is_answered(b),
    }
}

proof fn lemma_both_answered(a: Dialogue, b: Dialogue, r: Result<Verdict, DisputeError>)
    requires
        a.len() > 0,
        b.len() > 0,
        a[0].1 is Ok,
        b[0].1 is Ok,
        blames_silence(a.drop_first(), b.drop_first(), r),
    ensures
        blames_silence(a, b, r),
{
    let at = match r {
        Err(DisputeError::Abandoned { at, .. }) => at,
        _ => Step(0),
    };
    lemma_first_answered(a, at);
    lemma_first_answered(b, at);
}

proof fn lemma_search_silence(c: Bracket, a: Dialogue, b: Dialogue, r: Result<Verdict, DisputeError>)
    requires
        c.narrowed(),
        searched(c, a, b, r),
    ensures
        blames_silence(a, b, r),
        r matches Err(e) ==> e is Abandoned,
        r matches Ok(v) ==> v.rounds >= c.rounds && a.len() == v.rounds - c.rounds + 2 && b.len()
            == v.rounds - c.rounds + 1,
    decreases c.gap(),
{
    if let Round::Ask { step } = c.round() {
        if let Ok(x) = a[0].1 {
            if let Ok(y) = b[0].1 {
                law_every_round_narrows(c, x, y);
                lemma_search_silence(c.recorded(x, y), a.drop_first(), b.drop_first(), r);
                lemma_both_answered(a, b, r);
            }
        }
    } else {
        if let Ok(_) = a[0].1 {
            assert(a.drop_first()[0] == a[1]);
        }
    }
}

/// Silence is blamed on the party that was silent, and on the step it was asked about; nobody is
/// asked after that. Where both always answered, nobody is blamed for it. A verdict counts the
/// rounds it took: each party was asked about both ends and once in every round, and then about the
/// instruction, the first party on both sides of it.
pub proof fn law_silence_is_blamed_on_the_silent(
    length: Step,
    a: Dialogue,
    b: Dialogue,
    r: Result<Verdict, DisputeError>,
)
    requires
        resolved(length, a, b, r),
    ensures
        blames_silence(a, b, r),
        r == Err::<Verdict, _>(DisputeError::EmptyExecution) <==> length.0 == 0,
        r matches Ok(v) ==> a.len() == v.rounds + 4 && b.len() == v.rounds + 3,
{
    vstd::arithmetic::power2::lemma2_to64();
    if length.0 > 0 {
        if let (Ok(x), Ok(y)) = (a[0].1, b[0].1) {
            let (a1, b1) = (a.drop_first(), b.drop_first());
            if b.len() > 0 && x == y {
                if let (Ok(p), Ok(q)) = (a1[0].1, b1[0].1) {
                    if b1.len() > 0 && p != q {
                        lemma_search_silence(
                            Bracket { agreed: 0, disagreed: length.0, rounds: 0 },
                            a1.drop_first(),
                            b1.drop_first(),
                            r,
                        );
                        lemma_both_answered(a1, b1, r);
                    }
                }
                if b.len() > 0 && ended(length, a1, b1, r) {
                    assert(blames_silence(a1, b1, r));
                    lemma_both_answered(a, b, r);
                }
            }
        }
    }
}

/// A party is guilty exactly if its claim is not what the instruction makes and the claim of the
/// other is. If both are, they do not disagree; if neither is, both are wrong, and what the
/// instruction makes is told.
pub proof fn law_whoever_is_wrong_alone_is_guilty(
    actual: Option<Digest>,
    first: Option<Digest>,
    second: Option<Digest>,
)
    ensures
        judged(actual, first, second) == (Judgment::Guilty { liar: Party::First }) <==> first
            != actual && second == actual,
        judged(actual, first, second) == (Judgment::Guilty { liar: Party::Second }) <==> first
            == actual && second != actual,
        judged(actual, first, second) is Inconsistent <==> first == actual && second == actual,
        judged(actual, first, second) == (Judgment::BothWrong { actual }) <==> first != actual
            && second != actual,
{
}

/// Once both parties have answered, the step that was asked about is where they agree if their
/// answers are the same, and where they disagree if not. The other bound stays, and the round is
/// counted.
pub proof fn law_an_answer_moves_one_bound(
    c: Bracket,
    first: Option<Digest>,
    second: Option<Digest>,
)
    requires
        c.narrowed(),
    ensures
        c.round() matches Round::Ask { step } ==> {
            let d = c.recorded(first, second);
            &&& d.rounds == c.rounds + 1
            &&& first == second ==> d.agreed == step.0 && d.disagreed == c.disagreed
            &&& first != second ==> d.agreed == c.agreed && d.disagreed == step.0
        },
        c.round() matches Round::Settled { divergence } ==> divergence.0 == c.agreed && c.disagreed
            == c.agreed + 1,
{
    law_every_round_narrows(c, first, second);
}

/// Resume points that are thinned fit the budget. Each is one of those there were, in order, and
/// the first stays.
pub proof fn law_thinning_keeps_within_the_budget(at: Seq<u64>, budget: nat)
    requires
        budget > 0,
        increasing(at),
    ensures
        thinned(at, budget).len() <= budget,
        at.len() <= budget ==> thinned(at, budget) == at,
        increasing(thinned(at, budget)),
        forall|i: int|
            0 <= i < thinned(at, budget).len() ==> at.contains(#[trigger] thinned(at, budget)[i]),
        at.len() > 0 ==> thinned(at, budget).len() > 0 && thinned(at, budget)[0] == at[0],
    decreases at.len(),
{
    if at.len() > budget {
        let half = halved(at);
        assert forall|i: int, j: int| 0 <= i < j < half.len() implies half[i] < half[j] by {
            assert(at[2 * i] < at[2 * j]);
        }
        law_thinning_keeps_within_the_budget(half, budget);
        assert forall|i: int| 0 <= i < thinned(at, budget).len() implies at.contains(
            #[trigger] thinned(at, budget)[i],
        ) by {
            assert(half.contains(thinned(half, budget)[i]));
            let k = choose|k: int| 0 <= k < half.len() && half[k] == thinned(half, budget)[i];
            assert(at[2 * k] == half[k]);
        }
    } else {
        assert forall|i: int| 0 <= i < at.len() implies at.contains(#[trigger] at[i]) by {}
    }
}

/// Resume points stand at least as far apart as before, at least far enough that the budget spans
/// the step, and never so near that keeping one costs more than replaying; and no further than one
/// of these asks.
pub proof fn law_the_spacing_is_the_widest_asked(interval: u64, step: u64, budget: usize)
    ensures
        budget == 0 ==> spaced_for(interval, step, budget) == interval,
        budget > 0 ==> ({
            let d = spaced_for(interval, step, budget);
            &&& d >= interval
            &&& d >= 4096
            &&& d >= step as int / budget as int
            &&& d == interval || d == 4096 || d == step as int / budget as int
        }),
{
}

} // verus!
