use tdoa_solver::descent::{
    Descent, Probe, MAX_ITERATIONS, PATIENCE, STEPS_PER_DIRECTION, STEP_LIMIT,
};
use tdoa_solver::scalar::Scalar;

fn scalar(x: f32) -> Scalar {
    Scalar::from_bits(x.to_bits())
}

#[test]
fn constants_of_the_descent() {
    assert_eq!(MAX_ITERATIONS, 10_000);
    assert_eq!(PATIENCE, 100);
    assert_eq!(STEP_LIMIT, 1000);
    assert_eq!(STEPS_PER_DIRECTION, 10);
}

#[test]
fn a_fresh_descent_asks_for_a_full_step_in_a_fresh_direction() {
    let d = Descent::new("seed", scalar(5.0));
    assert_eq!(
        d.next_probe(),
        Some(Probe { fresh_direction: true, step_divisor: 1 })
    );
    assert!(!d.is_finished());
    assert_eq!(*d.point(), "seed");
    assert_eq!(d.cost().to_bits(), 5.0f32.to_bits());
    assert_eq!(d.iteration(), 0);
    assert_eq!(d.last_improved(), 0);
}

#[test]
fn steps_halve_while_above_a_thousandth() {
    let mut d = Descent::new(0u32, scalar(1.0));
    let mut divisors = Vec::new();
    while d.iteration() == 0 {
        let probe = d.next_probe().unwrap();
        assert_eq!(probe.fresh_direction, probe.step_divisor == 1);
        divisors.push(probe.step_divisor);
        d.report(1, scalar(1.0));
    }
    assert_eq!(divisors, vec![1, 2, 4, 8, 16, 32, 64, 128, 256, 512]);
    for divisor in divisors {
        assert!(1.0 / divisor as f32 > 0.001);
    }
    assert!(1.0 / 1024.0 <= 0.001f32);
    assert_eq!(
        d.next_probe(),
        Some(Probe { fresh_direction: true, step_divisor: 1 })
    );
    assert_eq!(d.iteration(), 1);
}

#[test]
fn an_improvement_is_taken_and_ends_the_iteration() {
    let mut d = Descent::new(0u32, scalar(4.0));
    d.report(1, scalar(4.5));
    d.report(2, scalar(4.0));
    assert_eq!(d.next_probe().unwrap().step_divisor, 4);
    assert_eq!(*d.point(), 0);
    d.report(3, scalar(3.5));
    assert_eq!(*d.point(), 3);
    assert_eq!(d.cost().to_bits(), 3.5f32.to_bits());
    assert_eq!(d.iteration(), 1);
    assert_eq!(d.last_improved(), 0);
    assert_eq!(
        d.next_probe(),
        Some(Probe { fresh_direction: true, step_divisor: 1 })
    );
    d.report(4, scalar(3.0));
    assert_eq!(d.iteration(), 2);
    assert_eq!(d.last_improved(), 1);
    assert_eq!(d.into_candidate().0, 4);
}

#[test]
fn a_flat_surface_returns_the_seed() {
    let mut d = Descent::new(7u32, scalar(0.0));
    let mut probes = 0u32;
    while d.next_probe().is_some() {
        probes += 1;
        d.report(probes, scalar(0.0));
    }
    assert_eq!(probes, (PATIENCE + 2) * STEPS_PER_DIRECTION);
    assert_eq!(probes, 1020);
    assert_eq!(d.iteration(), 101);
    assert!(d.is_finished());
    let (point, cost) = d.into_candidate();
    assert_eq!(point, 7);
    assert_eq!(cost.to_bits(), 0.0f32.to_bits());
}

#[test]
fn patience_counts_from_the_last_improvement() {
    let mut d = Descent::new(0u32, scalar(10.0));
    let mut probes = 0u32;
    while d.next_probe().is_some() {
        let improve = d.iteration() == 50 && d.last_improved() == 0;
        probes += 1;
        d.report(probes, scalar(if improve { 9.0 } else { 10.0 }));
    }
    assert_eq!(d.last_improved(), 50);
    assert_eq!(d.iteration(), 151);
    assert_eq!(probes, 50 * 10 + 1 + 101 * 10);
    assert_eq!(d.cost().to_bits(), 9.0f32.to_bits());
}

#[test]
fn a_descent_that_always_improves_stops_at_the_cap() {
    let mut d = Descent::new(0u32, scalar(f32::MAX));
    let mut probes = 0u32;
    let mut cost = 1.0e6f32;
    while let Some(probe) = d.next_probe() {
        assert_eq!(probe, Probe { fresh_direction: true, step_divisor: 1 });
        probes += 1;
        cost -= 1.0;
        d.report(probes, scalar(cost));
    }
    assert_eq!(probes, MAX_ITERATIONS);
    assert_eq!(d.iteration(), MAX_ITERATIONS - 1);
    assert_eq!(d.last_improved(), MAX_ITERATIONS - 1);
    assert_eq!(*d.point(), MAX_ITERATIONS);
}

#[test]
fn no_descent_asks_for_more_than_its_budget() {
    // the longest run: improve on the last step of every direction
    let mut d = Descent::new(0u32, scalar(f32::MAX));
    let mut probes = 0u32;
    let mut cost = 1.0e6f32;
    while let Some(probe) = d.next_probe() {
        probes += 1;
        if probe.step_divisor == 512 {
            cost -= 1.0;
        }
        d.report(probes, scalar(if probe.step_divisor == 512 { cost } else { f32::MAX }));
    }
    assert_eq!(probes, MAX_ITERATIONS * STEPS_PER_DIRECTION);
}

#[test]
fn the_cost_never_rises() {
    let costs = [3.0f32, 5.0, 2.5, 2.5, f32::NAN, 9.0, 2.4, f32::INFINITY, 0.0, -0.0, 1.0];
    let mut d = Descent::new(0usize, scalar(4.0));
    let mut last = 4.0f32;
    for (k, cost) in costs.iter().enumerate() {
        d.report(k + 1, scalar(*cost));
        let now = f32::from_bits(d.cost().to_bits());
        assert!(now <= last);
        assert!(now <= 4.0);
        if *cost < last {
            assert_eq!(*d.point(), k + 1);
            assert_eq!(now.to_bits(), cost.to_bits());
        }
        last = now;
    }
    assert_eq!(last, 0.0);
    assert_eq!(*d.point(), 9);
}

#[test]
fn what_is_not_a_number_is_never_taken_and_never_beaten() {
    let mut d = Descent::new(0u32, scalar(1.0));
    d.report(1, scalar(f32::NAN));
    assert_eq!(*d.point(), 0);
    let mut lost = Descent::new(0u32, scalar(f32::NAN));
    while lost.next_probe().is_some() {
        lost.report(1, scalar(0.0));
    }
    assert_eq!(*lost.point(), 0);
    assert!(f32::from_bits(lost.cost().to_bits()).is_nan());
    assert_eq!(lost.iteration(), 101);
}

#[test]
fn a_stopped_descent_takes_no_report() {
    let mut d = Descent::new(0u32, scalar(1.0));
    while d.next_probe().is_some() {
        d.report(1, scalar(1.0));
    }
    let iteration = d.iteration();
    d.report(2, scalar(0.5));
    assert!(d.is_finished());
    assert_eq!(d.next_probe(), None);
    assert_eq!(d.iteration(), iteration);
    assert_eq!(d.into_candidate().0, 0);
}
