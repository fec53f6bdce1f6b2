//! Stepping strategies for ordinary differential equations

use crate::error::Error;
use vstd::prelude::*;

verus! {

/// The strategies by which a solver advances its state.
#[derive(Clone, Copy, Debug, PartialEq, Eq, Structural)]
pub enum StepperMethod {
    /// Euler method, of first order
    Euler,
    /// Midpoint method, of second order
    Midpoint,
    /// Classical Runge-Kutta method, of fourth order
    RungeKutta,
    /// Dormand-Prince method of fifth order with an embedded error estimate
    /// of fourth order, which adapts its step size
    DormandPrince,
}

/// The capability to advance a state by one time increment.
///
/// Each call of `step` advances the state that the stepper holds and returns
/// the new state. The fixed-step strategies commit every step; an adaptive
/// one fails with `NonConvergent` when it has used up its retries.
pub trait Stepper: Sized {
    /// The state that the stepper advances.
    type State;

    /// What the stepper promises of a step: that from *self* it leads to the
    /// stepper *next* and returns *state*. A stepper that states nothing
    /// promises nothing.
    open spec fn steps_to(&self, next: &Self, state: Result<Self::State, Error>) -> bool {
        true
    }

    /// Advance the state by one time increment and return the new state.
    fn step(&mut self) -> (state: Result<Self::State, Error>)
        ensures
            old(self).steps_to(final(self), state),
    ;
}

/// The two states of an adaptive step: attempts are still made, or one has
/// been accepted and committed.
#[derive(Clone, Copy, Debug, PartialEq, Eq, Structural)]
pub enum Phase {
    Stepping,
    Converged,
}

/// The attempts of one adaptive step: how many of them were rejected so
/// far, and how many may be.
#[derive(Clone, Copy, Debug)]
pub struct Attempts {
    /// How many rejected attempts the step may retry
    pub ceiling: usize,
    /// How many rejected attempts were retried so far
    pub retries: usize,
    pub phase: Phase,
}

impl Attempts {
    /// No more attempts were retried than may be.
    pub open spec fn wf(&self) -> bool {
        self.retries <= self.ceiling
    }

    /// What follows an attempt: an accepted one converges; a rejected one
    /// is retried while the ceiling allows it, and after that the step fails.
    pub open spec fn after(self, accepted: bool) -> Result<Attempts, Error> {
        if accepted {
            Ok(Attempts { phase: Phase::Converged, ..self })
        } else if self.retries < self.ceiling {
            Ok(Attempts { phase: Phase::Stepping, retries: (self.retries + 1) as usize, ..self })
        } else {
            Err(Error::NonConvergent)
        }
    }

    /// What follows a row of attempts, one after the other. Nothing follows
    /// a failure.
    pub open spec fn after_all(self, verdicts: Seq<bool>) -> Result<Attempts, Error>
        decreases verdicts.len(),
    {
        if verdicts.len() == 0 {
            Ok(self)
        } else {
            match self.after(verdicts[0]) {
                Ok(next) => next.after_all(verdicts.drop_first()),
                Err(e) => Err(e),
            }
        }
    }

    /// The retries are bounded: a row of rejected attempts does not fail
    /// while it is no longer than the retries that are left, and it fails
    /// with `NonConvergent` as soon as it is longer. So a step ends after at
    /// most `ceiling + 1` attempts.
    pub proof fn lemma_retries_are_bounded(self, verdicts: Seq<bool>)
        requires
            self.wf(),
            forall|i: int| 0 <= i < verdicts.len() ==> !verdicts[i],
        ensures
            verdicts.len() <= self.ceiling - self.retries ==> self.after_all(verdicts) == Ok::<
                Attempts,
                Error,
            >(
                Attempts {
                    phase: if verdicts.len() == 0 {
                        self.phase
                    } else {
                        Phase::Stepping
                    },
                    retries: (self.retries + verdicts.len()) as usize,
                    ..self
                },
            ),
            verdicts.len() > self.ceiling - self.retries ==> self.after_all(verdicts) == Err::<
                Attempts,
                Error,
            >(Error::NonConvergent),
        decreases verdicts.len(),
    {
        if verdicts.len() > 0 {
            assert(!verdicts[0]);
            if self.retries < self.ceiling {
                let next = self.after(false)->Ok_0;
                let rest = verdicts.drop_first();
                assert forall|i: int| 0 <= i < rest.len() implies !rest[i] by {
                    assert(rest[i] == verdicts[i + 1]);
                }
                next.lemma_retries_are_bounded(rest);
            }
        }
    }

    /// The start of a step that may retry *ceiling* rejected attempts.
    pub fn new(ceiling: usize) -> (res: Self)
        ensures
            res == (Attempts { ceiling, retries: 0, phase: Phase::Stepping }),
            res.wf(),
    {
        Attempts { ceiling, retries: 0, phase: Phase::Stepping }
    }

    /// Take note of an attempt and say how the step goes on: with
    /// `Converged` the step is committed, with `Stepping` it is tried again
    /// with the smaller size, and with `NonConvergent` it is given up.
    pub fn record(&mut self, accepted: bool) -> (res: Result<Phase, Error>)
        requires
            old(self).wf(),
        ensures
            final(self).wf(),
            match old(self).after(accepted) {
                Ok(next) => *final(self) == next && res == Ok::<Phase, Error>(next.phase),
                Err(e) => *final(self) == *old(self) && res == Err::<Phase, Error>(e),
            },
    {
        if accepted {
            self.phase = Phase::Converged;
            Ok(Phase::Converged)
        } else if self.retries < self.ceiling {
            self.retries = self.retries + 1;
            self.phase = Phase::Stepping;
            Ok(Phase::Stepping)
        } else {
            Err(Error::NonConvergent)
        }
    }
}

} // verus!
