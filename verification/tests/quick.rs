use hedron::math::organic::{Organic, SecondOrder};
use hedron::math::quick::{cycle_offset, fact, partial_clamp, stack_sum, wrap_around};

#[test]
fn fact_and_stack_sum() {
    assert_eq!(fact(0), 1);
    assert_eq!(fact(3), 6);
    assert_eq!(fact(10), 3628800);
    assert_eq!(stack_sum(0), 0);
    assert_eq!(stack_sum(3), 6);
    assert_eq!(stack_sum(100), 5050);
}

#[test]
fn wrap_around_wraps_both_ways() {
    assert_eq!(wrap_around(-2, 10), 8);
    assert_eq!(wrap_around(-1, 10), 9);
    assert_eq!(wrap_around(-10, 10), 0);
    assert_eq!(wrap_around(-11, 10), 9);
    assert_eq!(wrap_around(0, 10), 0);
    assert_eq!(wrap_around(13, 10), 3);
    assert_eq!(wrap_around(7, 10), wrap_around(17, 10));
}

#[test]
fn cycle_offset_rotates() {
    assert_eq!(cycle_offset(vec![1, 2, 3, 4, 5], 2), vec![3, 4, 5, 1, 2]);
    assert_eq!(cycle_offset(vec![1, 2, 3, 4, 5], -1), vec![5, 1, 2, 3, 4]);
    assert_eq!(cycle_offset(vec![1, 2, 3], 0), vec![1, 2, 3]);
    assert_eq!(cycle_offset(cycle_offset(vec![1, 2, 3, 4], 3), 2), cycle_offset(vec![1, 2, 3, 4], 5));
    assert_eq!(cycle_offset(Vec::<u8>::new(), 4), Vec::<u8>::new());
}

#[test]
fn partial_clamp_clamps() {
    assert_eq!(partial_clamp(5, 0, 10), 5);
    assert_eq!(partial_clamp(-5, 0, 10), 0);
    assert_eq!(partial_clamp(15, 0, 10), 10);
    assert_eq!(partial_clamp(0.5f64, 0.0, 1.0), 0.5);
    assert_eq!(partial_clamp(f64::NAN, 0.0, 1.0), 0.0);
    assert_eq!(partial_clamp(2.0f64, 0.0, f64::NAN), 2.0);
}

#[test]
fn organic_targets() {
    let mut o = Organic {
        system: SecondOrder { input_previous: 0.0f64, output: 1.0, output_velocity: 3.0 },
        target: 0.0,
    };
    assert_eq!(o.get(), 1.0);
    o.set(2.0);
    assert_eq!(o.target, 2.0);
    o.add_clamped(5.0, 0.0, 4.0);
    assert_eq!(o.target, 4.0);
    o.add_clamped(-1.5, 0.0, 4.0);
    assert_eq!(o.target, 2.5);
    o.set_force(7.0);
    assert_eq!(o.get(), 7.0);
    assert_eq!(o.system.input_previous, 7.0);
    assert_eq!(o.system.output_velocity, 0.0);
}
