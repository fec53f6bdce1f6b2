//! Ordinary differential equation solver

pub mod stepper;

use crate::error::Error;
use crate::ode::stepper::Stepper;
use vstd::prelude::*;

verus! {

/// `path` holds the steppers of a row of steps, before the first step and
/// after each of them: every stepper leads to the next by a step that
/// returns the state at its position in `states`.
pub open spec fn steps_along<S: Stepper>(path: Seq<S>, states: Seq<S::State>) -> bool {
    &&& path.len() == states.len() + 1
    &&& forall|k: int|
        0 <= k < states.len() ==> path[k].steps_to(&path[k + 1], Ok(#[trigger] states[k]))
}

/// A run that starts with the stepper `first` and ends with `last` has
/// appended `states` and returned `res`: the states are those that the
/// steps have returned, one step after the other, and where the run has
/// failed, the step after them has returned the error and left `last`.
pub open spec fn ran<S: Stepper>(
    first: S,
    last: S,
    states: Seq<S::State>,
    res: Result<(), Error>,
) -> bool {
    exists|path: Seq<S>|
        {
            &&& #[trigger] steps_along(path, states)
            &&& path[0] == first
            &&& match res {
                Ok(_) => path[path.len() - 1] == last,
                Err(e) => path[path.len() - 1].steps_to(&last, Err(e)),
            }
        }
}

/// Interface for solving ordinary differential equations
pub struct ODESolver<S: Stepper> {
    /// The steps that are still to be made
    pub steps: usize,
    pub stepper: S,
    /// The trajectory: the states that the steps made so far have returned
    pub data: Vec<S::State>,
}

impl<S: Stepper> ODESolver<S> {
    /// A solver that will make *steps* steps with *stepper*.
    pub fn new(steps: usize, stepper: S) -> (res: Self)
        ensures
            res.steps == steps,
            res.stepper == stepper,
            res.data@ == Seq::<S::State>::empty(),
    {
        ODESolver { steps, stepper, data: Vec::new() }
    }

    /// Take note of what a step has returned: a state is appended to the
    /// trajectory and the step counts as made; an error is handed on and
    /// leaves the solver as it was, the step still to be made.
    pub fn record(&mut self, outcome: Result<S::State, Error>) -> (res: Result<(), Error>)
        requires
            old(self).steps > 0,
        ensures
            final(self).stepper == old(self).stepper,
            match outcome {
                Ok(state) => {
                    &&& res == Ok::<(), Error>(())
                    &&& final(self).steps == old(self).steps - 1
                    &&& final(self).data@ == old(self).data@.push(state)
                },
                Err(e) => {
                    &&& res == Err::<(), Error>(e)
                    &&& final(self).steps == old(self).steps
                    &&& final(self).data@ == old(self).data@
                },
            },
    {
        match outcome {
            Ok(state) => {
                self.data.push(state);
                self.steps -= 1;
                Ok(())
            },
            Err(e) => Err(e),
        }
    }

    /// Make the steps that are still to be made, and append the state that
    /// each of them returns to the trajectory.
    ///
    /// The stepper is called once for each step. If a step fails, the run
    /// ends with its error: the states of the steps before it stay in the
    /// trajectory, and the failed step and those after it are still to be
    /// made.
    pub fn run(&mut self) -> (res: Result<(), Error>)
        ensures
            final(self).steps <= old(self).steps,
            final(self).data@.len() == old(self).data@.len() + (old(self).steps - final(self).steps),
            final(self).data@.subrange(0, old(self).data@.len() as int) == old(self).data@,
            res is Ok <==> final(self).steps == 0,
            ran(
                old(self).stepper,
                final(self).stepper,
                final(self).data@.subrange(
                    old(self).data@.len() as int,
                    final(self).data@.len() as int,
                ),
                res,
            ),
    {
        let ghost start = self.data@.len() as int;
        let ghost mut path: Seq<S> = seq![self.stepper];
        assert(self.data@.subrange(start, start) =~= Seq::<S::State>::empty());
        while self.steps > 0
            invariant
                start == old(self).data@.len(),
                self.steps <= old(self).steps,
                self.data@.len() == start + (old(self).steps - self.steps),
                self.data@.subrange(0, start) == old(self).data@,
                steps_along(path, self.data@.subrange(start, self.data@.len() as int)),
                path[0] == old(self).stepper,
                path[path.len() - 1] == self.stepper,
            decreases self.steps,
        {
            let ghost have = self.data@;
            let ghost made = have.subrange(start, have.len() as int);
            let outcome = self.stepper.step();
            match self.record(outcome) {
                Ok(()) => {
                    proof {
                        assert(self.data@.subrange(0, start) =~= have.subrange(0, start));
                        let now = self.data@.subrange(start, self.data@.len() as int);
                        let longer = path.push(self.stepper);
                        assert(now =~= made.push(outcome->Ok_0));
                        assert forall|k: int| 0 <= k < now.len() implies longer[k].steps_to(
                            &longer[k + 1],
                            Ok(#[trigger] now[k]),
                        ) by {
                            if k < made.len() {
                                assert(path[k].steps_to(&path[k + 1], Ok(made[k])));
                            }
                        }
                        path = longer;
                    }
                },
                Err(e) => {
                    assert(steps_along(path, made));
                    return Err(e);
                },
            }
        }
        proof {
            assert(self.data@.subrange(0, start) =~= old(self).data@);
            assert(steps_along(path, self.data@.subrange(start, self.data@.len() as int)));
        }
        Ok(())
    }
}

} // verus!
