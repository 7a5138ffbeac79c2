//! The control of one descent.
//!
//! A descent walks a point downhill on a cost surface that only the caller
//! can evaluate. It proceeds by iterations. Each iteration takes a fresh
//! random direction and tries steps of 1, 1/2, 1/4, ... along it, for as
//! long as the step exceeds 1/1000; the first step that lowers the cost is
//! taken and ends the iteration. The descent stops when more than
//! [`PATIENCE`] iterations have passed since the last improvement, and at the
//! latest after [`MAX_ITERATIONS`] iterations.
//!
//! [`Descent`] holds the state and takes every decision. The caller asks it
//! what to try ([`Descent::next_probe`]), evaluates the cost there, and
//! reports point and cost back ([`Descent::report`]).

use crate::scalar::Scalar;
use vstd::prelude::*;

verus! {

/// The number of iterations after which a descent stops at the latest.
pub const MAX_ITERATIONS: u32 = 10_000;

/// The number of iterations without improvement that a descent tolerates.
pub const PATIENCE: u32 = 100;

/// A step of `1 / d` is tried while `d` is below this: while the step
/// exceeds a thousandth.
pub const STEP_LIMIT: u32 = 1000;

/// The number of steps tried along one direction when none improves.
pub const STEPS_PER_DIRECTION: u32 = 10;

/// What the caller is to evaluate next: the cost at
/// `point + direction / step_divisor`.
#[derive(Clone, Copy, Debug, PartialEq, Eq, Structural)]
pub struct Probe {
    /// The direction is to be drawn anew; otherwise the last one is kept.
    pub fresh_direction: bool,
    /// The step is one over this.
    pub step_divisor: u32,
}

/// The divisors of the steps that an iteration may try.
pub open spec fn is_step_divisor(d: int) -> bool {
    d == 1 || d == 2 || d == 4 || d == 8 || d == 16 || d == 32 || d == 64 || d == 128 || d == 256
        || d == 512
}

/// How many steps an iteration still tries from the divisor `d` on, if none
/// improves.
pub open spec fn steps_from(d: int) -> int {
    if d == 1 {
        10
    } else if d == 2 {
        9
    } else if d == 4 {
        8
    } else if d == 8 {
        7
    } else if d == 16 {
        6
    } else if d == 32 {
        5
    } else if d == 64 {
        4
    } else if d == 128 {
        3
    } else if d == 256 {
        2
    } else {
        1
    }
}

/// The state of a descent, as contracts see it.
pub struct DescentState<P> {
    /// The best point so far.
    pub point: P,
    /// The cost at `point`.
    pub cost: Scalar,
    /// The iteration under way.
    pub iteration: int,
    /// The last iteration that improved the point, 0 if none did.
    pub last_improved: int,
    /// The step tried next is one over this.
    pub step_divisor: int,
    /// The descent has stopped.
    pub finished: bool,
}

impl<P> DescentState<P> {
    /// The state before the first probe.
    pub open spec fn start(seed: P, seed_cost: Scalar) -> Self {
        DescentState {
            point: seed,
            cost: seed_cost,
            iteration: 0,
            last_improved: 0,
            step_divisor: 1,
            finished: false,
        }
    }

    /// What every state of a descent satisfies.
    pub open spec fn wf(self) -> bool {
        &&& 0 <= self.last_improved <= self.iteration < MAX_ITERATIONS
        &&& self.iteration - self.last_improved <= PATIENCE + 1
        &&& is_step_divisor(self.step_divisor)
    }

    /// The probe that the state asks for, if the descent goes on.
    pub open spec fn request(self) -> Option<Probe> {
        if self.finished {
            None
        } else {
            Some(
                Probe {
                    fresh_direction: self.step_divisor == 1,
                    step_divisor: self.step_divisor as u32,
                },
            )
        }
    }

    /// The state once the iteration under way has ended: stopped if patience
    /// or the iterations have run out, else at the start of the next
    /// iteration.
    pub open spec fn end_iteration(self) -> Self {
        if self.iteration - self.last_improved > PATIENCE || self.iteration + 1 >= MAX_ITERATIONS {
            DescentState { finished: true, ..self }
        } else {
            DescentState { iteration: self.iteration + 1, step_divisor: 1, ..self }
        }
    }

    /// The state after the requested probe was found to lie at `point` and
    /// to cost `cost`. A lower cost is taken and ends the iteration; any
    /// other halves the step, and ends the iteration once the step is too
    /// small. A stopped descent stays as it is.
    pub open spec fn after(self, point: P, cost: Scalar) -> Self {
        if self.finished {
            self
        } else if cost.below(self.cost) {
            DescentState { point, cost, last_improved: self.iteration, ..self }.end_iteration()
        } else if self.step_divisor * 2 < STEP_LIMIT {
            DescentState { step_divisor: self.step_divisor * 2, ..self }
        } else {
            self.end_iteration()
        }
    }

    /// The state after a series of probes, reported in order.
    pub open spec fn run(self, probes: Seq<(P, Scalar)>) -> Self
        decreases probes.len(),
    {
        if probes.len() == 0 {
            self
        } else {
            self.run(probes.drop_last()).after(probes.last().0, probes.last().1)
        }
    }

    /// An upper bound on the probes that the descent may still ask for.
    pub open spec fn probes_left(self) -> int {
        if self.finished {
            0
        } else {
            (MAX_ITERATIONS - 1 - self.iteration) * STEPS_PER_DIRECTION + steps_from(
                self.step_divisor,
            )
        }
    }
}

/// A report keeps the state well formed.
pub proof fn lemma_after_wf<P>(s: DescentState<P>, point: P, cost: Scalar)
    requires
        s.wf(),
    ensures
        s.after(point, cost).wf(),
{
}

/// A run keeps the state well formed.
pub proof fn lemma_run_wf<P>(s: DescentState<P>, probes: Seq<(P, Scalar)>)
    requires
        s.wf(),
    ensures
        s.run(probes).wf(),
    decreases probes.len(),
{
    if probes.len() > 0 {
        lemma_run_wf(s, probes.drop_last());
        lemma_after_wf(s.run(probes.drop_last()), probes.last().0, probes.last().1);
    }
}

/// A report never raises the cost: the state keeps its point and cost, or
/// takes a point whose cost is below.
pub proof fn lemma_after_cost<P>(s: DescentState<P>, point: P, cost: Scalar)
    ensures
        ({
            let t = s.after(point, cost);
            (t.point == s.point && t.cost == s.cost) || (t.point == point && t.cost == cost
                && cost.below(s.cost))
        }),
{
}

/// The cost that a descent ends with is at most the cost at its seed,
/// whatever the probes were, if the cost at the seed is a number.
pub proof fn lemma_run_cost_at_most_seed<P>(s: DescentState<P>, probes: Seq<(P, Scalar)>)
    requires
        !s.cost.nan(),
    ensures
        s.run(probes).cost.at_most(s.cost),
    decreases probes.len(),
{
    if probes.len() > 0 {
        lemma_run_cost_at_most_seed(s, probes.drop_last());
        lemma_after_cost(s.run(probes.drop_last()), probes.last().0, probes.last().1);
    }
}

/// The cost of a run never rises above where it stood, even where a cost is
/// not a number: no earlier cost is below the last.
pub proof fn lemma_run_cost_never_rises<P>(s: DescentState<P>, probes: Seq<(P, Scalar)>)
    ensures
        !s.cost.below(s.run(probes).cost),
        s.run(probes).cost.bits == s.cost.bits || s.run(probes).cost.below(s.cost),
    decreases probes.len(),
{
    if probes.len() > 0 {
        lemma_run_cost_never_rises(s, probes.drop_last());
        lemma_after_cost(s.run(probes.drop_last()), probes.last().0, probes.last().1);
    }
}

/// Where no probe costs less than the seed, the descent keeps the seed and
/// its cost. On a constant cost surface a descent so returns its seed.
pub proof fn lemma_unbeaten_seed_is_kept<P>(s: DescentState<P>, probes: Seq<(P, Scalar)>)
    requires
        forall|k: int| 0 <= k < probes.len() ==> !(#[trigger] probes[k]).1.below(s.cost),
    ensures
        s.run(probes).point == s.point,
        s.run(probes).cost == s.cost,
    decreases probes.len(),
{
    if probes.len() > 0 {
        let head = probes.drop_last();
        assert forall|k: int| 0 <= k < head.len() implies !(#[trigger] head[k]).1.below(s.cost) by {
            assert(head[k] == probes[k]);
        }
        lemma_unbeaten_seed_is_kept(s, head);
        assert(!probes[probes.len() - 1].1.below(s.cost));
    }
}

/// Each report to a descent that goes on uses up at least one of the probes
/// that are left.
pub proof fn lemma_after_uses_a_probe<P>(s: DescentState<P>, point: P, cost: Scalar)
    requires
        s.wf(),
        !s.finished,
    ensures
        0 <= s.after(point, cost).probes_left() < s.probes_left(),
{
}

/// A fresh descent asks for at most `MAX_ITERATIONS * STEPS_PER_DIRECTION`
/// probes: after that many reports it has stopped, whatever they were.
pub proof fn lemma_descent_stops<P>(seed: P, seed_cost: Scalar, probes: Seq<(P, Scalar)>)
    requires
        probes.len() >= MAX_ITERATIONS * STEPS_PER_DIRECTION,
    ensures
        DescentState::start(seed, seed_cost).run(probes).finished,
{
    let s = DescentState::start(seed, seed_cost);
    lemma_run_probes_left(s, probes);
}

/// A run of `m` reports leaves at most `probes_left() - m` probes.
pub proof fn lemma_run_probes_left<P>(s: DescentState<P>, probes: Seq<(P, Scalar)>)
    requires
        s.wf(),
    ensures
        s.run(probes).finished || 0 < s.run(probes).probes_left() <= s.probes_left()
            - probes.len(),
    decreases probes.len(),
{
    if probes.len() > 0 {
        let before = s.run(probes.drop_last());
        lemma_run_probes_left(s, probes.drop_last());
        lemma_run_wf(s, probes.drop_last());
        if !before.finished {
            lemma_after_uses_a_probe(before, probes.last().0, probes.last().1);
        }
    }
}

/// A descent that never improves stops by patience: it is under way in
/// iteration `m / 10` after `m` reports, and has stopped after
/// `(PATIENCE + 2) * STEPS_PER_DIRECTION` of them, not before.
pub proof fn lemma_unbeaten_descent_stops<P>(seed: P, seed_cost: Scalar, probes: Seq<(P, Scalar)>)
    requires
        forall|k: int| 0 <= k < probes.len() ==> !(#[trigger] probes[k]).1.below(seed_cost),
    ensures
        DescentState::start(seed, seed_cost).run(probes).finished <==> probes.len() >= (PATIENCE
            + 2) * STEPS_PER_DIRECTION,
        probes.len() < (PATIENCE + 2) * STEPS_PER_DIRECTION ==> ({
            let t = DescentState::start(seed, seed_cost).run(probes);
            &&& t.iteration == probes.len() / (STEPS_PER_DIRECTION as nat)
            &&& steps_from(t.step_divisor) == STEPS_PER_DIRECTION - probes.len() % (
            STEPS_PER_DIRECTION as nat)
            &&& is_step_divisor(t.step_divisor)
            &&& t.last_improved == 0
        }),
    decreases probes.len(),
{
    let s = DescentState::start(seed, seed_cost);
    if probes.len() > 0 {
        let head = probes.drop_last();
        assert forall|k: int| 0 <= k < head.len() implies !(#[trigger] head[k]).1.below(
            seed_cost,
        ) by {
            assert(head[k] == probes[k]);
        }
        lemma_unbeaten_descent_stops(seed, seed_cost, head);
        lemma_unbeaten_seed_is_kept(s, head);
        assert(!probes[probes.len() - 1].1.below(seed_cost));
    }
}

/// One descent under way.
pub struct Descent<P> {
    point: P,
    cost: Scalar,
    iteration: u32,
    last_improved: u32,
    step_divisor: u32,
    finished: bool,
}

impl<P> View for Descent<P> {
    type V = DescentState<P>;

    closed spec fn view(&self) -> DescentState<P> {
        DescentState {
            point: self.point,
            cost: self.cost,
            iteration: self.iteration as int,
            last_improved: self.last_improved as int,
            step_divisor: self.step_divisor as int,
            finished: self.finished,
        }
    }
}

impl<P> Descent<P> {
    #[verifier::type_invariant]
    spec fn well_formed(self) -> bool {
        self@.wf()
    }

    /// A descent that starts at `seed`, where the cost is `seed_cost`.
    pub fn new(seed: P, seed_cost: Scalar) -> (d: Self)
        ensures
            d@ == DescentState::start(seed, seed_cost),
            d@.wf(),
    {
        Descent {
            point: seed,
            cost: seed_cost,
            iteration: 0,
            last_improved: 0,
            step_divisor: 1,
            finished: false,
        }
    }

    /// What to evaluate next, or `None` once the descent has stopped.
    pub fn next_probe(&self) -> (probe: Option<Probe>)
        ensures
            probe == self@.request(),
            self@.wf(),
    {
        proof {
            use_type_invariant(self);
        }
        if self.finished {
            None
        } else {
            Some(Probe { fresh_direction: self.step_divisor == 1, step_divisor: self.step_divisor })
        }
    }

    /// Ends the iteration under way.
    fn end_iteration(&mut self)
        ensures
            final(self)@ == old(self)@.end_iteration(),
    {
        proof {
            use_type_invariant(&*self);
        }
        if self.iteration - self.last_improved > PATIENCE || self.iteration + 1 >= MAX_ITERATIONS {
            self.finished = true;
        } else {
            self.step_divisor = 1;
            self.iteration = self.iteration + 1;
        }
    }

    /// Takes the outcome of the probe that `next_probe` asked for: the point
    /// that was tried and the cost there. The cost of the descent stays or
    /// falls.
    pub fn report(&mut self, point: P, cost: Scalar)
        ensures
            final(self)@ == old(self)@.after(point, cost),
            final(self)@.wf(),
            final(self)@.cost == old(self)@.cost || final(self)@.cost.below(old(self)@.cost),
    {
        proof {
            use_type_invariant(&*self);
            lemma_after_wf(self@, point, cost);
            lemma_after_cost(self@, point, cost);
        }
        if self.finished {
        } else if cost.lt(self.cost) {
            self.point = point;
            self.cost = cost;
            self.last_improved = self.iteration;
            self.end_iteration();
        } else if self.step_divisor * 2 < STEP_LIMIT {
            self.step_divisor = self.step_divisor * 2;
        } else {
            self.end_iteration();
        }
    }

    /// Whether the descent has stopped.
    pub fn is_finished(&self) -> (r: bool)
        ensures
            r == self@.finished,
    {
        self.finished
    }

    /// The best point so far.
    pub fn point(&self) -> (p: &P)
        ensures
            *p == self@.point,
    {
        &self.point
    }

    /// The cost at the best point so far.
    pub fn cost(&self) -> (c: Scalar)
        ensures
            c == self@.cost,
    {
        self.cost
    }

    /// The iteration under way, counted from 0.
    pub fn iteration(&self) -> (k: u32)
        ensures
            k == self@.iteration,
    {
        self.iteration
    }

    /// The last iteration that improved the point, 0 if none did.
    pub fn last_improved(&self) -> (k: u32)
        ensures
            k == self@.last_improved,
    {
        self.last_improved
    }

    /// The best point and its cost: what the descent found.
    pub fn into_candidate(self) -> (found: (P, Scalar))
        ensures
            found.0 == self@.point,
            found.1 == self@.cost,
    {
        (self.point, self.cost)
    }
}

} // verus!
