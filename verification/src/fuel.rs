//! The instruction counter that gives an execution trace its budget.
//!
//! Fuel is charged once per basic block, on entry, for the number of instructions the block
//! contains. A block's instruction count is fixed when the module is instrumented and identical
//! for every worker, so the running total is exact even though it advances in jumps.
//!
//! Because charging is batched, many distinct states share one fuel value. Positions in an
//! execution are therefore named by step index, and fuel is the budget that bounds an execution
//! and the unit costs are accounted in.
//!
//! # Determinism rules
//!
//! 1. Exhaustion is detected at block granularity, and reported at the block's entry.
//! 2. A block spanning several snapshot thresholds produces one snapshot, not several.
//! 3. Arithmetic overflow is exhaustion, not a wrap and not a panic.
use crate::text;
use vstd::arithmetic::div_mod::{lemma_fundamental_div_mod, lemma_fundamental_div_mod_converse};
use vstd::arithmetic::power2::{lemma_pow2_pos, lemma_pow2_strictly_increases, pow2};
use vstd::prelude::*;

verus! {

/// A position in an execution, measured in instructions retired since entry.
#[derive(Clone, Copy, PartialEq, Eq, PartialOrd, Ord, Hash, Debug, Default, Structural)]
pub struct Fuel(pub u64);

impl Fuel {
    /// The start of any execution.
    #[must_use]
    pub fn zero() -> (r: Self)
        ensures
            r.0 == 0,
    {
        Self(0)
    }

    /// Construct a fuel value from a raw instruction count.
    #[must_use]
    pub fn new(instructions: u64) -> (r: Self)
        ensures
            r.0 == instructions,
    {
        Self(instructions)
    }

    /// The raw instruction count.
    #[must_use]
    pub fn get(self) -> (r: u64)
        ensures
            r == self.0,
    {
        self.0
    }

    /// The count in decimal.
    #[must_use]
    pub fn to_string(&self) -> (r: String)
        ensures
            r@ == text::decimal_text(self.0 as nat),
    {
        text::decimal(self.0)
    }
}

/// The largest permitted snapshot interval exponent.
///
/// `2^63` instructions is far beyond any executable workload; the bound exists so that
/// interval arithmetic cannot overflow rather than to express a real policy.
pub const MAX_INTERVAL_LOG2: u8 = 63;

/// Rejected [`FuelMeter`] configurations.
#[derive(Debug, Clone, Copy, PartialEq, Eq, Structural)]
pub enum ConfigError {
    /// The snapshot interval exponent exceeded [`MAX_INTERVAL_LOG2`].
    IntervalTooLarge {
        /// The exponent that was requested.
        requested: u8,
    },
}

impl ConfigError {
    /// The message a person reads.
    pub open spec fn message(self) -> Seq<char> {
        match self {
            ConfigError::IntervalTooLarge { requested } => "snapshot interval 2^"@
                + text::decimal_text(requested as nat) + " exceeds the maximum 2^63"@,
        }
    }

    /// Render the error.
    #[must_use]
    pub fn to_string(&self) -> (r: String)
        ensures
            r@ == self.message(),
    {
        match *self {
            ConfigError::IntervalTooLarge { requested } => {
                let n = text::decimal(requested as u64);
                text::join3("snapshot interval 2^", n.as_str(), " exceeds the maximum 2^63")
            },
        }
    }
}

/// What the caller must do after charging a block.
#[derive(Debug, Clone, Copy, PartialEq, Eq, Structural)]
#[must_use]
pub enum Charge {
    /// The block was charged. Continue executing.
    Continue,
    /// The block was charged, and execution has crossed a snapshot threshold.
    SnapshotDue {
        /// The fuel value this snapshot is labelled with: the total *before* this block ran.
        at: Fuel,
    },
    /// The limit would be exceeded. Execution must trap here without running the block.
    Exhausted {
        /// The fuel value at which execution traps: the block's entry.
        at: Fuel,
    },
}

/// The first multiple of `2^interval_log2` strictly above `total`, or the largest
/// representable count where that multiple does not fit.
pub open spec fn threshold_past(total: nat, interval_log2: nat) -> nat {
    let next = (total / pow2(interval_log2) + 1) * pow2(interval_log2);
    if next > u64::MAX {
        u64::MAX as nat
    } else {
        next
    }
}

/// The numbers a meter keeps.
pub struct MeterState {
    /// Instructions retired.
    pub consumed: nat,
    /// The instruction ceiling.
    pub limit: nat,
    /// Snapshots fall every `2^interval_log2` instructions.
    pub interval_log2: nat,
    /// The next total at or above which a snapshot becomes due.
    pub next_threshold: nat,
}

impl MeterState {
    /// A meter that has run `consumed` instructions.
    pub open spec fn at(consumed: nat, limit: nat, interval_log2: nat) -> MeterState {
        MeterState {
            consumed,
            limit,
            interval_log2,
            next_threshold: threshold_past(consumed, interval_log2),
        }
    }

    /// Does a block of this size fit under the ceiling and under `2^64`?
    pub open spec fn affords(self, instructions: nat) -> bool {
        self.consumed + instructions <= self.limit && self.consumed + instructions <= u64::MAX
    }

    /// The meter after charging for a block.
    pub open spec fn after(self, instructions: nat) -> MeterState {
        if self.affords(instructions) {
            let total = self.consumed + instructions;
            MeterState {
                consumed: total,
                next_threshold: if total >= self.next_threshold {
                    threshold_past(total, self.interval_log2)
                } else {
                    self.next_threshold
                },
                ..self
            }
        } else {
            self
        }
    }

    /// What charging for a block reports.
    pub open spec fn outcome(self, instructions: nat) -> Charge {
        let entry = Fuel(self.consumed as u64);
        if !self.affords(instructions) {
            Charge::Exhausted { at: entry }
        } else if self.consumed + instructions >= self.next_threshold {
            Charge::SnapshotDue { at: entry }
        } else {
            Charge::Continue
        }
    }
}

/// Tracks instructions retired, enforces a ceiling, and schedules trace snapshots.
///
/// A meter is created per work unit execution, from the limits declared in the unit's manifest.
#[derive(Debug, Clone, Copy)]
pub struct FuelMeter {
    consumed: u64,
    limit: u64,
    interval_log2: u8,
    /// The next total at or above which a snapshot becomes due.
    next_threshold: u64,
}

impl View for FuelMeter {
    type V = MeterState;

    closed spec fn view(&self) -> MeterState {
        MeterState {
            consumed: self.consumed as nat,
            limit: self.limit as nat,
            interval_log2: self.interval_log2 as nat,
            next_threshold: self.next_threshold as nat,
        }
    }
}

/// Shifting one left is a power of two.
proof fn lemma_shift_is_pow2(n: u8)
    requires
        n <= 63,
    ensures
        1u64 << n == pow2(n as nat),
        0 < pow2(n as nat) <= 0x8000_0000_0000_0000,
{
    lemma_pow2_pos(n as nat);
    if n < 63 {
        lemma_pow2_strictly_increases(n as nat, 63);
    }
    vstd::arithmetic::power2::lemma2_to64();
    vstd::arithmetic::power2::lemma2_to64_rest();
    vstd::bits::lemma_u64_shl_is_mul(1u64, n as u64);
}

/// Every total between one and its next threshold has that same next threshold.
proof fn lemma_threshold_stable(total: nat, later: nat, interval_log2: nat)
    requires
        total <= later < threshold_past(total, interval_log2),
    ensures
        threshold_past(later, interval_log2) == threshold_past(total, interval_log2),
{
    lemma_pow2_pos(interval_log2);
    let p = pow2(interval_log2) as int;
    let q = total as int / p;
    lemma_fundamental_div_mod(total as int, p);
    assert(p * q == q * p) by (nonlinear_arith);
    assert((q + 1) * p == q * p + p) by (nonlinear_arith);
    lemma_fundamental_div_mod_converse(later as int, p, q, later as int - q * p);
}

/// A threshold lies strictly above its total, unless it was capped.
proof fn lemma_threshold_above(total: nat, interval_log2: nat)
    ensures
        threshold_past(total, interval_log2) > total || threshold_past(total, interval_log2)
            == u64::MAX,
{
    lemma_pow2_pos(interval_log2);
    let p = pow2(interval_log2) as int;
    let q = total as int / p;
    lemma_fundamental_div_mod(total as int, p);
    assert(p * q == q * p) by (nonlinear_arith);
    assert((q + 1) * p == q * p + p) by (nonlinear_arith);
}

impl FuelMeter {
    /// The snapshot interval is one whose arithmetic cannot overflow, and the schedule is the
    /// one the count so far calls for.
    #[verifier::type_invariant]
    closed spec fn consistent(self) -> bool {
        &&& self.interval_log2 <= MAX_INTERVAL_LOG2
        &&& self.next_threshold == threshold_past(self.consumed as nat, self.interval_log2 as nat)
    }

    /// Create a meter with an instruction ceiling and a snapshot interval of `2^interval_log2`.
    ///
    /// The state at fuel 0 is committed separately as the execution's initial root, so the
    /// first scheduled snapshot is one interval in.
    pub fn new(limit: u64, interval_log2: u8) -> (r: Result<Self, ConfigError>)
        ensures
            r is Ok <==> interval_log2 <= MAX_INTERVAL_LOG2,
            r matches Ok(meter) ==> meter@ == MeterState::at(
                0,
                limit as nat,
                interval_log2 as nat,
            ),
            r matches Err(e) ==> e == (ConfigError::IntervalTooLarge { requested: interval_log2 }),
    {
        if interval_log2 > MAX_INTERVAL_LOG2 {
            return Err(ConfigError::IntervalTooLarge { requested: interval_log2 });
        }
        proof {
            lemma_shift_is_pow2(interval_log2);
            let p = pow2(interval_log2 as nat);
            assert((0nat / p + 1) * p == p) by (nonlinear_arith)
                requires
                    p > 0,
            ;
        }
        Ok(Self { consumed: 0, limit, interval_log2, next_threshold: 1u64 << interval_log2 })
    }

    /// Resume a meter partway through an execution.
    ///
    /// The snapshot schedule is the one an execution that had retired `consumed` instructions
    /// would have, so a resumed meter behaves exactly like one that got there the long way.
    pub fn restore(consumed: Fuel, limit: u64, interval_log2: u8) -> (r: Result<Self, ConfigError>)
        ensures
            r is Ok <==> interval_log2 <= MAX_INTERVAL_LOG2,
            r matches Ok(meter) ==> meter@ == MeterState::at(
                consumed.0 as nat,
                limit as nat,
                interval_log2 as nat,
            ),
            r matches Err(e) ==> e == (ConfigError::IntervalTooLarge { requested: interval_log2 }),
    {
        if interval_log2 > MAX_INTERVAL_LOG2 {
            return Err(ConfigError::IntervalTooLarge { requested: interval_log2 });
        }
        let next_threshold: u64 = next_threshold_past(consumed.0, interval_log2);
        Ok(Self { consumed: consumed.0, limit, interval_log2, next_threshold })
    }

    /// Instructions retired so far.
    #[must_use]
    pub fn consumed(&self) -> (r: Fuel)
        ensures
            r.0 == self@.consumed,
    {
        Fuel(self.consumed)
    }

    /// The instruction ceiling this execution was created with.
    #[must_use]
    pub fn limit(&self) -> (r: u64)
        ensures
            r == self@.limit,
    {
        self.limit
    }

    /// Instructions remaining before exhaustion.
    #[must_use]
    pub fn remaining(&self) -> (r: u64)
        ensures
            r == if self@.consumed <= self@.limit {
                self@.limit - self@.consumed
            } else {
                0
            },
    {
        self.limit.saturating_sub(self.consumed)
    }

    /// Charge for a basic block of `instructions` instructions, about to be executed.
    ///
    /// When the result is [`Charge::Exhausted`] the meter is left untouched, so the reported
    /// fuel value is the block's entry point and repeated calls report the same thing.
    pub fn charge(&mut self, instructions: u64) -> (r: Charge)
        ensures
            r == old(self)@.outcome(instructions as nat),
            final(self)@ == old(self)@.after(instructions as nat),
    {
        proof {
            use_type_invariant(&*self);
        }
        let entry = Fuel(self.consumed);
        let total: u64 = match self.consumed.checked_add(instructions) {
            Some(total) => total,
            None => return Charge::Exhausted { at: entry },
        };
        if total > self.limit {
            return Charge::Exhausted { at: entry };
        }
        let due = total >= self.next_threshold;
        let next_threshold: u64 = if due {
            next_threshold_past(total, self.interval_log2)
        } else {
            proof {
                lemma_threshold_stable(
                    self.consumed as nat,
                    total as nat,
                    self.interval_log2 as nat,
                );
            }
            self.next_threshold
        };
        *self = FuelMeter {
            consumed: total,
            limit: self.limit,
            interval_log2: self.interval_log2,
            next_threshold,
        };
        if due {
            return Charge::SnapshotDue { at: entry };
        }
        Charge::Continue
    }

    /// The fuel value at which the next snapshot becomes due.
    #[must_use]
    pub fn next_threshold(&self) -> (r: Fuel)
        ensures
            r.0 == self@.next_threshold,
            self@.next_threshold == threshold_past(self@.consumed, self@.interval_log2),
    {
        proof {
            use_type_invariant(self);
        }
        Fuel(self.next_threshold)
    }
}

/// The first threshold strictly greater than `total`.
fn next_threshold_past(total: u64, interval_log2: u8) -> (r: u64)
    requires
        interval_log2 <= MAX_INTERVAL_LOG2,
    ensures
        r == threshold_past(total as nat, interval_log2 as nat),
{
    proof {
        lemma_shift_is_pow2(interval_log2);
    }
    let interval: u64 = 1u64 << interval_log2;
    proof {
        lemma_fundamental_div_mod(total as int, interval as int);
    }
    let quotient: u64 = total / interval;
    if interval == 1 {
        assert((total as nat / interval as nat + 1) * (interval as nat) == total + 1)
            by (nonlinear_arith)
            requires
                interval == 1,
        ;
        if total == u64::MAX {
            return u64::MAX;
        }
        return total + 1;
    }
    assert(quotient * interval <= total) by (nonlinear_arith)
        requires
            quotient == total / interval,
            interval > 0,
    ;
    assert(quotient < u64::MAX) by (nonlinear_arith)
        requires
            quotient * interval <= total,
            interval >= 2,
            total <= u64::MAX,
    ;
    match (quotient + 1).checked_mul(interval) {
        Some(next) => next,
        None => u64::MAX,
    }
}

/// Splitting a run of instructions into different blocks does not change the totals: charging
/// for two blocks leaves the meter where charging for both at once does.
pub proof fn law_partitioning_keeps_totals(consumed: nat, limit: nat, interval: nat, a: nat, b: nat)
    requires
        MeterState::at(consumed, limit, interval).affords(a + b),
    ensures
        ({
            let meter = MeterState::at(consumed, limit, interval);
            &&& meter.affords(a)
            &&& meter.after(a).affords(b)
            &&& meter.after(a).after(b) == meter.after(a + b)
        }),
{
    let meter = MeterState::at(consumed, limit, interval);
    if consumed + a < meter.next_threshold {
        lemma_threshold_stable(consumed, consumed + a, interval);
    }
    if consumed + a + b < meter.after(a).next_threshold {
        lemma_threshold_stable(consumed + a, consumed + a + b, interval);
        assert(threshold_past(consumed + a + b, interval) == meter.after(a).next_threshold);
        if consumed + a >= meter.next_threshold {
            assert(consumed + a + b >= meter.next_threshold);
        }
    } else {
        if consumed + a + b < meter.next_threshold {
            lemma_threshold_stable(consumed, consumed + a + b, interval);
        }
    }
}

/// A resumed meter is the meter an execution reaches the long way: charging always leaves the
/// schedule that the count alone determines.
pub proof fn law_schedule_follows_count(consumed: nat, limit: nat, interval: nat, a: nat)
    ensures
        ({
            let after = MeterState::at(consumed, limit, interval).after(a);
            after == MeterState::at(after.consumed, limit, interval)
        }),
{
    let meter = MeterState::at(consumed, limit, interval);
    if meter.affords(a) && consumed + a < meter.next_threshold {
        lemma_threshold_stable(consumed, consumed + a, interval);
    }
}

/// An exhausted charge consumes nothing, so repeating it, or asking for more, reports the same
/// fuel value.
pub proof fn law_exhaustion_is_stable(meter: MeterState, a: nat, b: nat)
    requires
        meter.outcome(a) is Exhausted,
        a <= b,
    ensures
        meter.after(a) == meter,
        meter.after(a).outcome(b) == meter.outcome(a),
{
}

/// Labels of successive snapshots strictly increase, below the last representable count.
pub proof fn law_snapshot_labels_increase(consumed: nat, limit: nat, interval: nat, a: nat, b: nat)
    requires
        consumed < u64::MAX,
        MeterState::at(consumed, limit, interval).outcome(a) is SnapshotDue,
        MeterState::at(consumed, limit, interval).after(a).outcome(b) is SnapshotDue,
    ensures
        ({
            let meter = MeterState::at(consumed, limit, interval);
            meter.outcome(a)->SnapshotDue_at.0 < meter.after(a).outcome(b)->SnapshotDue_at.0
        }),
{
    lemma_threshold_above(consumed, interval);
}

/// Charging for a block adds its instructions if the ceiling allows all of them, and none
/// otherwise. It reports the fuel at which the block was entered, a snapshot exactly if the total
/// reaches a multiple of the interval that it had not reached before, and exhaustion exactly if the
/// ceiling is too low.
pub proof fn law_snapshots_fall_on_multiples(
    consumed: nat,
    limit: nat,
    interval: nat,
    a: nat,
    multiple: nat,
)
    requires
        limit <= u64::MAX,
        consumed <= limit,
    ensures
        ({
            let meter = MeterState::at(consumed, limit, interval);
            let total = consumed + a;
            if total > limit {
                &&& meter.outcome(a) == (Charge::Exhausted { at: Fuel(consumed as u64) })
                &&& meter.after(a).consumed == consumed
            } else {
                &&& meter.after(a).consumed == total
                &&& meter.outcome(a) is Continue || meter.outcome(a) == (Charge::SnapshotDue {
                    at: Fuel(consumed as u64),
                })
                &&& consumed < multiple * pow2(interval) <= total
                    ==> meter.outcome(a) is SnapshotDue
                &&& meter.outcome(a) is SnapshotDue ==> total / pow2(interval) > consumed / pow2(
                    interval,
                ) || total == u64::MAX
            }
        }),
{
    lemma_pow2_pos(interval);
    let p = pow2(interval) as int;
    let q = consumed as int / p;
    let total = (consumed + a) as int;
    lemma_fundamental_div_mod(consumed as int, p);
    lemma_fundamental_div_mod(total, p);
    assert(p * q == q * p && (q + 1) * p == q * p + p) by (nonlinear_arith);
    if consumed < multiple * p {
        assert(multiple > q) by (nonlinear_arith)
            requires
                consumed < multiple * p,
                consumed >= q * p,
                p > 0,
        ;
        assert(multiple * p >= (q + 1) * p) by (nonlinear_arith)
            requires
                multiple >= q + 1,
                p > 0,
        ;
    }
    if total >= (q + 1) * p {
        let r = total / p;
        assert(r >= q + 1) by (nonlinear_arith)
            requires
                total >= (q + 1) * p,
                total < p * r + p,
                p > 0,
        ;
    }
}

} // verus!
