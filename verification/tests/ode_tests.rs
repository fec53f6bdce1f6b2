use scialg::error::Error;
use scialg::ode::stepper::{Attempts, Phase, Stepper, StepperMethod};
use scialg::ode::ODESolver;
use scialg::vector::{coefficients, three_dimensional};

struct Projectile {
    h: f64,
    y: [f64; 4],
}

impl Stepper for Projectile {
    type State = [f64; 4];

    fn step(&mut self) -> Result<[f64; 4], Error> {
        let d = [self.y[2], self.y[3], 0.0, -9.81];
        for i in 0..4 {
            self.y[i] += self.h * d[i];
        }
        Ok(self.y)
    }
}

struct ProjectileRungeKutta {
    h: f64,
    y: [f64; 4],
}

fn gravity(y: [f64; 4]) -> [f64; 4] {
    [y[2], y[3], 0.0, -9.81]
}

fn shifted(y: [f64; 4], k: [f64; 4], by: f64) -> [f64; 4] {
    [y[0] + k[0] * by, y[1] + k[1] * by, y[2] + k[2] * by, y[3] + k[3] * by]
}

impl Stepper for ProjectileRungeKutta {
    type State = [f64; 4];

    fn step(&mut self) -> Result<[f64; 4], Error> {
        let h = self.h;
        let k1 = gravity(self.y);
        let k2 = gravity(shifted(self.y, k1, h / 2.0));
        let k3 = gravity(shifted(self.y, k2, h / 2.0));
        let k4 = gravity(shifted(self.y, k3, h));
        for i in 0..4 {
            self.y[i] += h * (k1[i] / 6.0 + k2[i] / 3.0 + k3[i] / 3.0 + k4[i] / 6.0);
        }
        Ok(self.y)
    }
}

struct Countdown {
    left: u32,
}

impl Stepper for Countdown {
    type State = u32;

    fn step(&mut self) -> Result<u32, Error> {
        if self.left == 0 {
            return Err(Error::NonConvergent);
        }
        self.left -= 1;
        Ok(self.left)
    }
}

#[test]
fn coefficients_of_matching_length() {
    let res = coefficients::<f64, 3>(&[1.0, -1.0, 1.0], 0.0);
    assert_eq!(res, Ok([1.0, -1.0, 1.0]));
}

#[test]
fn coefficients_guard_dimension() {
    let res = coefficients::<f64, 3>(&[1.0, 2.0], 0.0);
    assert_eq!(res, Err(Error::DimensionMismatch));
    let res = coefficients::<f64, 3>(&[1.0, 2.0, 3.0, 4.0], 0.0);
    assert_eq!(res, Err(Error::DimensionMismatch));
}

#[test]
fn coefficients_of_dimension_zero() {
    let res = coefficients::<i32, 0>(&[], 0);
    assert_eq!(res, Ok([]));
}

#[test]
fn three_dimensional_guard() {
    assert_eq!(three_dimensional(3), Ok(()));
    assert_eq!(three_dimensional(4), Err(Error::DimensionMismatch));
    assert_eq!(three_dimensional(0), Err(Error::DimensionMismatch));
}

#[test]
fn stepper_methods_are_told_apart() {
    assert_eq!(StepperMethod::Euler, StepperMethod::Euler);
    assert_ne!(StepperMethod::Euler, StepperMethod::Midpoint);
    assert_ne!(StepperMethod::RungeKutta, StepperMethod::DormandPrince);
}

#[test]
fn accepted_attempt_converges() {
    let mut attempts = Attempts::new(3);
    assert_eq!(attempts.record(true), Ok(Phase::Converged));
    assert_eq!(attempts.retries, 0);
    assert_eq!(attempts.phase, Phase::Converged);
}

#[test]
fn rejected_attempts_are_retried_up_to_the_ceiling() {
    let mut attempts = Attempts::new(2);
    assert_eq!(attempts.record(false), Ok(Phase::Stepping));
    assert_eq!(attempts.record(false), Ok(Phase::Stepping));
    assert_eq!(attempts.retries, 2);
    assert_eq!(attempts.record(false), Err(Error::NonConvergent));
    assert_eq!(attempts.retries, 2);
}

#[test]
fn no_retry_with_ceiling_zero() {
    let mut attempts = Attempts::new(0);
    assert_eq!(attempts.record(false), Err(Error::NonConvergent));
    assert_eq!(attempts.record(true), Ok(Phase::Converged));
}

#[test]
fn solver_makes_exactly_the_steps() {
    let mut solver = ODESolver::new(3, Countdown { left: 10 });
    assert_eq!(solver.run(), Ok(()));
    assert_eq!(solver.data, vec![9, 8, 7]);
    assert_eq!(solver.steps, 0);
    assert_eq!(solver.stepper.left, 7);
}

#[test]
fn solver_without_steps_does_nothing() {
    let mut solver = ODESolver::new(0, Countdown { left: 0 });
    assert_eq!(solver.run(), Ok(()));
    assert!(solver.data.is_empty());
}

#[test]
fn solver_stops_at_the_failed_step() {
    let mut solver = ODESolver::new(5, Countdown { left: 2 });
    assert_eq!(solver.run(), Err(Error::NonConvergent));
    assert_eq!(solver.data, vec![1, 0]);
    assert_eq!(solver.steps, 3);
}

#[test]
fn ode_test_solver() {
    let steps = 300;
    let step_size = 0.001;
    let p0 = coefficients::<f64, 4>(&[0.0, 1.5, 1.0, 1.0], 0.0).unwrap();

    let mut solver = ODESolver::new(steps, Projectile { h: step_size, y: p0 });
    assert_eq!(solver.run(), Ok(()));

    println!("{:?}", solver.data);

    assert_eq!(solver.data.len(), 300);
    assert_eq!(solver.steps, 0);
    // x grows with the constant horizontal velocity
    assert!((solver.data[299][0] - 0.3).abs() < 1e-9);
    // y follows 1.5 + t - 4.905 t^2 up to the error of the method
    let t = 0.3;
    assert!((solver.data[299][1] - (1.5 + t - 4.905 * t * t)).abs() < 1e-2);
}

#[test]
fn mod_test_solver() {
    let steps = 300;
    let step_size = 0.001;
    let p0 = coefficients::<f64, 4>(&[0.0, 1.5, 1.0, 1.0], 0.0).unwrap();

    let mut solver = ODESolver::new(steps, ProjectileRungeKutta { h: step_size, y: p0 });
    assert_eq!(solver.run(), Ok(()));

    assert_eq!(solver.data.len(), 300);
    // the method of fourth order is exact on a parabola
    let t = 0.3;
    assert!((solver.data[299][1] - (1.5 + t - 4.905 * t * t)).abs() < 1e-9);
    assert!((solver.data[299][3] - (1.0 - 9.81 * t)).abs() < 1e-9);
}

#[test]
fn projectile_lands_near_the_analytic_time() {
    let mut solver = ODESolver::new(1000, Projectile { h: 0.001, y: [0.0, 1.5, 1.0, 1.0] });
    assert_eq!(solver.run(), Ok(()));
    let landed = solver.data.iter().position(|s| s[1] < 0.0).unwrap();
    let t = (landed + 1) as f64 * 0.001;
    assert!((t - 0.664).abs() < 0.01);
}

struct Misconfigured;

impl Stepper for Misconfigured {
    type State = u32;

    fn step(&mut self) -> Result<u32, Error> {
        Err(Error::InvalidConfiguration)
    }
}

#[test]
fn solver_hands_on_the_error_of_the_stepper() {
    let mut solver = ODESolver::new(2, Misconfigured);
    assert_eq!(solver.run(), Err(Error::InvalidConfiguration));
    assert!(solver.data.is_empty());
    assert_eq!(solver.steps, 2);
}

#[test]
fn record_appends_a_state_and_counts_the_step() {
    let mut solver = ODESolver::new(2, Countdown { left: 5 });
    assert_eq!(solver.record(Ok(41)), Ok(()));
    assert_eq!(solver.data, vec![41]);
    assert_eq!(solver.steps, 1);
    assert_eq!(solver.record(Err(Error::NonConvergent)), Err(Error::NonConvergent));
    assert_eq!(solver.data, vec![41]);
    assert_eq!(solver.steps, 1);
}

#[test]
fn run_appends_to_an_earlier_trajectory() {
    let mut solver = ODESolver::new(1, Countdown { left: 5 });
    assert_eq!(solver.run(), Ok(()));
    solver.steps = 2;
    assert_eq!(solver.run(), Ok(()));
    assert_eq!(solver.data, vec![4, 3, 2]);
}
