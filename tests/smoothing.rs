use param_smoothing::curve::SmoothingStyle;
use param_smoothing::fixed::Fixed;
use param_smoothing::smoother::Smoother;

fn ms(n: i32) -> Fixed {
    Fixed::from_int(n)
}

/// Applying `next()` `n` times should be the same as `next_step()` for `n` steps.
#[test]
fn linear_f32_next_equivalence() {
    let style = SmoothingStyle::Linear(ms(100));

    let mut current = Fixed::from_raw(400_000_000_000_000_000);
    let target = Fixed::from_raw(800_000_000_000_000_000);
    let steps = 15;
    let step_size = style.step_size(current, target, steps);

    let expected_result = style.next_step(current, target, step_size, steps);
    for _ in 0..steps {
        current = style.next(current, target, step_size);
    }

    assert_eq!(current, expected_result);
}

#[test]
fn logarithmic_f32_next_equivalence() {
    let style = SmoothingStyle::Logarithmic(ms(100));

    let mut current = Fixed::from_raw(400_000_000_000_000_000);
    let target = Fixed::from_raw(800_000_000_000_000_000);
    let steps = 15;
    let step_size = style.step_size(current, target, steps);

    let expected_result = style.next_step(current, target, step_size, steps);
    for _ in 0..steps {
        current = style.next(current, target, step_size);
    }

    assert_eq!(current, expected_result);
}

#[test]
fn exponential_f32_next_equivalence() {
    let style = SmoothingStyle::Exponential(ms(100));

    let mut current = Fixed::from_raw(400_000_000_000_000_000);
    let target = Fixed::from_raw(800_000_000_000_000_000);
    let steps = 15;
    let step_size = style.step_size(current, target, steps);

    let expected_result = style.next_step(current, target, step_size, steps);
    for _ in 0..steps {
        current = style.next(current, target, step_size);
    }

    assert_eq!(current, expected_result);
}

#[test]
fn linear_f32_smoothing() {
    let mut smoother: Smoother<Fixed> = Smoother::new(SmoothingStyle::Linear(ms(100)));
    smoother.reset(Fixed::from_int(10));
    assert_eq!(smoother.next(), Fixed::from_int(10));

    smoother.set_target(Fixed::from_int(100), Fixed::from_int(20));
    for _ in 0..(10 - 2) {
        smoother.next();
    }
    assert_ne!(smoother.next(), Fixed::from_int(20));
    assert_eq!(smoother.next(), Fixed::from_int(20));
}

#[test]
fn linear_i32_smoothing() {
    let mut smoother: Smoother<i32> = Smoother::new(SmoothingStyle::Linear(ms(100)));
    smoother.reset(10);
    assert_eq!(smoother.next(), 10);

    smoother.set_target(Fixed::from_int(100), 20);
    for _ in 0..(10 - 2) {
        smoother.next();
    }
    assert_ne!(smoother.next(), 20);
    assert_eq!(smoother.next(), 20);
}

#[test]
fn logarithmic_f32_smoothing() {
    let mut smoother: Smoother<Fixed> = Smoother::new(SmoothingStyle::Logarithmic(ms(100)));
    smoother.reset(Fixed::from_int(10));
    assert_eq!(smoother.next(), Fixed::from_int(10));

    smoother.set_target(Fixed::from_int(100), Fixed::from_int(20));
    for _ in 0..(10 - 2) {
        smoother.next();
    }
    assert_ne!(smoother.next(), Fixed::from_int(20));
    assert_eq!(smoother.next(), Fixed::from_int(20));
}

#[test]
fn logarithmic_i32_smoothing() {
    let mut smoother: Smoother<i32> = Smoother::new(SmoothingStyle::Logarithmic(ms(100)));
    smoother.reset(10);
    assert_eq!(smoother.next(), 10);

    smoother.set_target(Fixed::from_int(100), 20);
    for _ in 0..(10 - 2) {
        smoother.next();
    }
    assert_ne!(smoother.next(), 20);
    assert_eq!(smoother.next(), 20);
}

#[test]
fn skipping_linear_f32_smoothing() {
    let mut smoother: Smoother<Fixed> = Smoother::new(SmoothingStyle::Linear(ms(100)));
    smoother.reset(Fixed::from_int(10));
    assert_eq!(smoother.next(), Fixed::from_int(10));

    smoother.set_target(Fixed::from_int(100), Fixed::from_int(20));
    smoother.next_step(8);
    assert_ne!(smoother.next(), Fixed::from_int(20));
    assert_eq!(smoother.next(), Fixed::from_int(20));
}

#[test]
fn skipping_linear_i32_smoothing() {
    let mut smoother: Smoother<i32> = Smoother::new(SmoothingStyle::Linear(ms(100)));
    smoother.reset(10);
    assert_eq!(smoother.next(), 10);

    smoother.set_target(Fixed::from_int(100), 20);
    smoother.next_step(8);
    assert_ne!(smoother.next(), 20);
    assert_eq!(smoother.next(), 20);
}

#[test]
fn skipping_logarithmic_f32_smoothing() {
    let mut smoother: Smoother<Fixed> = Smoother::new(SmoothingStyle::Logarithmic(ms(100)));
    smoother.reset(Fixed::from_int(10));
    assert_eq!(smoother.next(), Fixed::from_int(10));

    smoother.set_target(Fixed::from_int(100), Fixed::from_int(20));
    smoother.next_step(8);
    assert_ne!(smoother.next(), Fixed::from_int(20));
    assert_eq!(smoother.next(), Fixed::from_int(20));
}

#[test]
fn skipping_logarithmic_i32_smoothing() {
    let mut smoother: Smoother<i32> = Smoother::new(SmoothingStyle::Logarithmic(ms(100)));
    smoother.reset(10);
    assert_eq!(smoother.next(), 10);

    smoother.set_target(Fixed::from_int(100), 20);
    smoother.next_step(8);
    assert_ne!(smoother.next(), 20);
    assert_eq!(smoother.next(), 20);
}
