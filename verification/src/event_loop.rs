//! The cooperative loop, the contract of its units, and what holds of the
//! order in which it steps them.

use vstd::arithmetic::div_mod::{lemma_fundamental_div_mod, lemma_mod_pos_bound};
use vstd::prelude::*;

verus! {

/// A unit of cooperative work. The loop hands it the shared value for the
/// length of one step and gets control back when the step returns.
///
/// The shared value of type `C` is what the units of one loop own jointly.
/// It is lent to one step at a time, so no two units ever write it at once,
/// and what one step wrote is what the next step finds.
pub trait Runnable<C> {
    /// What one step of this unit may do to the shared value: whether a step
    /// that finds it as `before` can leave it as `after`. A unit that makes
    /// no promise keeps the default, which allows everything.
    open spec fn may_step(&self, before: C, after: C) -> bool {
        true
    }

    /// Performs one step. What the step did to the shared value is within
    /// `may_step`, and the unit's promise for later steps is unchanged: the
    /// promise may not rest on state that a step alters.
    fn do_work(&mut self, shared: &mut C)
        ensures
            old(self).may_step(*old(shared), *final(shared)),
            forall|before: C, after: C| #[trigger]
                final(self).may_step(before, after) == old(self).may_step(before, after),
    ;
}

/// The position, counted from 0, of the step that the unit registered as
/// number `unit` makes in round `round` of a loop with `units` units.
pub open spec fn step_index(units: nat, round: nat, unit: nat) -> int {
    (round * units + unit) as int
}

/// Whether `trace` lists the shared value as `rounds` full rounds of `units`
/// leave it: `trace[0]` before the first step, and behind each step what
/// that step left. In every round every unit steps once, in the order of
/// registration, and each step keeps the promise of the unit that makes it.
pub open spec fn is_run_trace<C, R: Runnable<C> + ?Sized>(
    units: Seq<Box<R>>,
    rounds: nat,
    trace: Seq<C>,
) -> bool {
    &&& trace.len() == rounds * units.len() + 1
    &&& forall|round: nat, unit: nat|
        round < rounds && unit < units.len() ==> units[unit as int].may_step(
            #[trigger] trace[step_index(units.len(), round, unit)],
            trace[step_index(units.len(), round, unit) + 1],
        )
}

/// A cooperative loop: the units registered with it, in the order of
/// registration. `R` is the type of a unit: one type that implements
/// `Runnable`, or `dyn Runnable<C>` for units of several types.
pub struct EventLoop<R: ?Sized> {
    runnables: Vec<Box<R>>,
}

impl<R: ?Sized> View for EventLoop<R> {
    type V = Seq<Box<R>>;

    closed spec fn view(&self) -> Seq<Box<R>> {
        self.runnables@
    }
}

impl<R: ?Sized> EventLoop<R> {
    /// A loop with no unit registered.
    pub fn new() -> (event_loop: EventLoop<R>)
        ensures
            event_loop@ == Seq::<Box<R>>::empty(),
    {
        let empty_vec: Vec<Box<R>> = Vec::new();
        EventLoop { runnables: empty_vec }
    }

    /// Registers `runnable` behind the units registered so far. The loop
    /// owns it from here on.
    ///
    /// The first clause says it all. The others spell out what it means for
    /// each position, for callers whose `R` is a trait object.
    pub fn add_runnable(&mut self, runnable: Box<R>)
        ensures
            final(self)@ == old(self)@.push(runnable),
            final(self)@.len() == old(self)@.len() + 1,
            final(self)@[old(self)@.len() as int] == runnable,
            forall|unit: int|
                0 <= unit < old(self)@.len() ==> #[trigger] final(self)@[unit] == old(self)@[unit],
    {
        self.runnables.push(runnable);
    }

    /// Runs `rounds` rounds and returns. In each round every registered unit
    /// makes one step on `shared`, in the order of registration; nothing else
    /// touches `shared`. The units stay registered in their order, and each
    /// keeps its promise.
    ///
    /// The loop has no end of its own: a host that wants it to go on calls
    /// `run` again, and by `lemma_runs_join` the rounds of both calls are
    /// the rounds of one run.
    pub fn run<C>(&mut self, shared: &mut C, rounds: usize) where R: Runnable<C>
        ensures
            final(self)@.len() == old(self)@.len(),
            forall|unit: int, before: C, after: C|
                0 <= unit < old(self)@.len() ==> #[trigger] final(self)@[unit].may_step(
                    before,
                    after,
                ) == old(self)@[unit].may_step(before, after),
            exists|trace: Seq<C>|
                {
                    &&& #[trigger] is_run_trace(old(self)@, rounds as nat, trace)
                    &&& trace.first() == *old(shared)
                    &&& trace.last() == *final(shared)
                },
            old(self)@.len() == 0 || rounds == 0 ==> *final(shared) == *old(shared),
    {
        let n = self.runnables.len();
        let ghost units = self.runnables@;
        let ghost mut trace: Seq<C> = seq![*shared];
        let mut round: usize = 0;
        while round < rounds
            invariant
                round <= rounds,
                n == units.len(),
                units == old(self)@,
                self.runnables@.len() == n,
                forall|unit: int, before: C, after: C|
                    0 <= unit < n ==> #[trigger] self.runnables@[unit].may_step(before, after)
                        == units[unit].may_step(before, after),
                is_run_trace(units, round as nat, trace),
                trace.first() == *old(shared),
                trace.last() == *shared,
                n == 0 || round == 0 ==> trace.len() == 1,
            decreases rounds - round,
        {
            let mut unit: usize = 0;
            while unit < n
                invariant
                    round < rounds,
                    unit <= n,
                    n == units.len(),
                    self.runnables@.len() == n,
                    forall|unit: int, before: C, after: C|
                        0 <= unit < n ==> #[trigger] self.runnables@[unit].may_step(
                            before,
                            after,
                        ) == units[unit].may_step(before, after),
                    trace.len() == step_index(n as nat, round as nat, unit as nat) + 1,
                    forall|r: nat, u: nat|
                        u < n && (r < round || (r == round && u < unit))
                            ==> units[u as int].may_step(
                            #[trigger] trace[step_index(n as nat, r, u)],
                            trace[step_index(n as nat, r, u) + 1],
                        ),
                    trace.first() == *old(shared),
                    trace.last() == *shared,
                    n == 0 ==> trace.len() == 1,
                decreases n - unit,
            {
                let ghost before = trace;
                self.runnables[unit].do_work(shared);
                proof {
                    trace = before.push(*shared);
                    assert forall|r: nat, u: nat|
                        u < n && (r < round || (r == round && u < unit + 1))
                        implies units[u as int].may_step(
                        #[trigger] trace[step_index(n as nat, r, u)],
                        trace[step_index(n as nat, r, u) + 1],
                    ) by {
                        if r < round {
                            lemma_steps_in_registration_order(n as nat, r, u, round as nat, 0);
                        }
                    }
                }
                unit += 1;
            }
            proof {
                lemma_next_round(n as nat, round as nat);
            }
            round += 1;
        }
    }
}

proof fn lemma_next_round(units: nat, round: nat)
    ensures
        step_index(units, round + 1, 0) == step_index(units, round, units),
{
    assert((round + 1) * units == round * units + units) by (nonlinear_arith);
}

/// Steps follow each other round by round, and within a round in the order
/// of registration: of two steps the earlier is the one of the earlier
/// round, or, in one round, the one of the unit registered first. No two
/// steps share a position.
pub proof fn lemma_steps_in_registration_order(
    units: nat,
    round_a: nat,
    unit_a: nat,
    round_b: nat,
    unit_b: nat,
)
    requires
        unit_a < units,
        unit_b < units,
    ensures
        step_index(units, round_a, unit_a) < step_index(units, round_b, unit_b) <==> round_a
            < round_b || (round_a == round_b && unit_a < unit_b),
        step_index(units, round_a, unit_a) == step_index(units, round_b, unit_b) <==> round_a
            == round_b && unit_a == unit_b,
{
    if round_a < round_b {
        assert(round_a * units + units <= round_b * units) by (nonlinear_arith)
            requires
                round_a + 1 <= round_b,
        ;
    } else if round_b < round_a {
        assert(round_b * units + units <= round_a * units) by (nonlinear_arith)
            requires
                round_b + 1 <= round_a,
        ;
    }
}

/// Every position of a run of `rounds` rounds is the step of one unit in
/// one round. With `lemma_steps_in_registration_order`, which gives each
/// round and unit a position of its own, this says that in every round
/// every unit steps exactly once.
pub proof fn lemma_each_position_is_one_step(units: nat, rounds: nat, position: nat)
    requires
        position < rounds * units,
    ensures
        position / units < rounds,
        position % units < units,
        step_index(units, position / units, position % units) == position,
{
    assert(units > 0) by (nonlinear_arith)
        requires
            rounds * units > position,
    ;
    lemma_fundamental_div_mod(position as int, units as int);
    lemma_mod_pos_bound(position as int, units as int);
    let round = (position as int) / (units as int);
    let unit = (position as int) % (units as int);
    assert(0 <= round < rounds) by (nonlinear_arith)
        requires
            position == units * round + unit,
            0 <= unit < units,
            rounds * units > position,
    ;
    assert(units * round == round * units) by (nonlinear_arith);
}

/// Within one round, the steps of units that leave a part of the shared
/// value alone leave it as it was.
proof fn lemma_kept_within_round<C, R: Runnable<C> + ?Sized, V>(
    units: Seq<Box<R>>,
    rounds: nat,
    trace: Seq<C>,
    part: spec_fn(C) -> V,
    writer: nat,
    round: nat,
    from: nat,
    to: nat,
)
    requires
        is_run_trace(units, rounds, trace),
        round < rounds,
        from <= to <= units.len(),
        !(from <= writer < to),
        forall|unit: nat, before: C, after: C|
            unit < units.len() && unit != writer && #[trigger] units[unit as int].may_step(
                before,
                after,
            ) ==> part(after) == part(before),
    ensures
        part(trace[step_index(units.len(), round, to)]) == part(
            trace[step_index(units.len(), round, from)],
        ),
    decreases to - from,
{
    if from < to {
        let last = (to - 1) as nat;
        lemma_kept_within_round(units, rounds, trace, part, writer, round, from, last);
        let position = step_index(units.len(), round, last);
        assert(units[last as int].may_step(trace[position], trace[position + 1]));
    }
}

/// A written value is found by every step up to the writer's next one.
///
/// Let `part` be a part of the shared value that only the unit `writer`
/// changes, and look at what the writer's step of round `round` left there.
/// A unit registered behind the writer finds it in the same round. A unit
/// registered ahead of the writer finds it in the next round, and in round
/// `round` still finds what the writer left the round before; in round 0
/// that is what the run started with.
pub proof fn lemma_written_value_is_found<C, R: Runnable<C> + ?Sized, V>(
    units: Seq<Box<R>>,
    rounds: nat,
    trace: Seq<C>,
    part: spec_fn(C) -> V,
    writer: nat,
    reader: nat,
    round: nat,
)
    requires
        is_run_trace(units, rounds, trace),
        writer < units.len(),
        reader < units.len(),
        reader != writer,
        round < rounds,
        forall|unit: nat, before: C, after: C|
            unit < units.len() && unit != writer && #[trigger] units[unit as int].may_step(
                before,
                after,
            ) ==> part(after) == part(before),
    ensures
        reader > writer ==> part(trace[step_index(units.len(), round, reader)]) == part(
            trace[step_index(units.len(), round, writer) + 1],
        ),
        reader < writer && round + 1 < rounds ==> part(
            trace[step_index(units.len(), round + 1, reader)],
        ) == part(trace[step_index(units.len(), round, writer) + 1]),
        reader < writer && round > 0 ==> part(trace[step_index(units.len(), round, reader)])
            == part(trace[step_index(units.len(), (round - 1) as nat, writer) + 1]),
        reader < writer && round == 0 ==> part(trace[step_index(units.len(), round, reader)])
            == part(trace[0]),
{
    let n = units.len();
    if reader > writer {
        lemma_kept_within_round(units, rounds, trace, part, writer, round, writer + 1, reader);
    } else {
        lemma_kept_within_round(units, rounds, trace, part, writer, round, 0, reader);
        if round + 1 < rounds {
            lemma_kept_within_round(units, rounds, trace, part, writer, round, writer + 1, n);
            lemma_next_round(n, round);
            lemma_kept_within_round(units, rounds, trace, part, writer, round + 1, 0, reader);
        }
        if round > 0 {
            let earlier = (round - 1) as nat;
            lemma_kept_within_round(units, rounds, trace, part, writer, earlier, writer + 1, n);
            lemma_next_round(n, earlier);
        } else {
            assert(step_index(n, round, 0) == 0) by (nonlinear_arith)
                requires
                    round == 0,
                    step_index(n, round, 0) == round * n + 0,
            ;
        }
    }
}

/// Two runs in a row are one run of as many rounds as both have together.
///
/// `head` is the trace of a run of `first` rounds, and `tail` that of a run
/// of `second` rounds which starts where the first one ended, with the same
/// units under the same promises, as `run` leaves them. Then `head` with
/// `tail` behind it, the value where they meet listed once, is the trace of
/// a run of `first + second` rounds.
pub proof fn lemma_runs_join<C, R: Runnable<C> + ?Sized>(
    units: Seq<Box<R>>,
    first: nat,
    head: Seq<C>,
    later_units: Seq<Box<R>>,
    second: nat,
    tail: Seq<C>,
)
    requires
        is_run_trace(units, first, head),
        is_run_trace(later_units, second, tail),
        later_units.len() == units.len(),
        forall|unit: int, before: C, after: C|
            0 <= unit < units.len() ==> #[trigger] later_units[unit].may_step(before, after)
                == units[unit].may_step(before, after),
        tail.first() == head.last(),
    ensures
        is_run_trace(units, first + second, head + tail.drop_first()),
        (head + tail.drop_first()).first() == head.first(),
        (head + tail.drop_first()).last() == tail.last(),
{
    let n = units.len();
    let joined = head + tail.drop_first();
    assert((first + second) * n == first * n + second * n) by (nonlinear_arith);
    assert forall|round: nat, unit: nat|
        round < first + second && unit < n implies units[unit as int].may_step(
        #[trigger] joined[step_index(n, round, unit)],
        joined[step_index(n, round, unit) + 1],
    ) by {
        let position = step_index(n, round, unit);
        if round < first {
            lemma_steps_in_registration_order(n, round, unit, first, 0);
            assert(units[unit as int].may_step(head[position], head[position + 1]));
        } else {
            let round_in_tail = (round - first) as nat;
            let position_in_tail = step_index(n, round_in_tail, unit);
            assert(position == first * n + position_in_tail) by (nonlinear_arith)
                requires
                    position == round * n + unit,
                    position_in_tail == (round - first) * n + unit,
            ;
            lemma_steps_in_registration_order(n, round_in_tail, unit, second, 0);
            assert(later_units[unit as int].may_step(
                tail[position_in_tail],
                tail[position_in_tail + 1],
            ));
            assert(joined[position] == tail[position_in_tail]);
            assert(joined[position + 1] == tail[position_in_tail + 1]);
        }
    }
}

} // verus!
