use param_smoothing::curve::SmoothingStyle;
use param_smoothing::fixed::{Fixed, RAW_LIMIT};
use param_smoothing::sample::{FromPrimitive, Smoothable, ToPrimitive};
use param_smoothing::smoother::Smoother;

fn linear(ms: i32) -> SmoothingStyle {
    SmoothingStyle::Linear(Fixed::from_int(ms))
}

fn ramp<T: Smoothable>(style: SmoothingStyle, from: T, to: T) -> Smoother<T> {
    let mut smoother = Smoother::new(style);
    smoother.reset(from);
    smoother.set_target(Fixed::from_int(100), to);
    smoother
}

#[test]
fn fixed_arithmetic_exact_values() {
    let a = Fixed::from_raw(1_500_000_000_000_000_000);
    let b = Fixed::from_raw(2_500_000_000_000_000_000);
    assert_eq!(a.saturating_mul(b), Fixed::from_raw(3_750_000_000_000_000_000));
    assert_eq!(Fixed::from_raw(-1_500_000_000_000_000_000).saturating_mul(b), Fixed::from_raw(-3_750_000_000_000_000_000));
    assert_eq!(Fixed::from_raw(1).saturating_mul(Fixed::from_raw(1)), Fixed::zero());
    assert_eq!(a.saturating_add(b), Fixed::from_int(4));
    assert_eq!(a.saturating_sub(b), Fixed::from_int(-1));
}

#[test]
fn fixed_arithmetic_saturates() {
    let max = Fixed::from_raw(RAW_LIMIT);
    assert_eq!(max.saturating_add(Fixed::one()), max);
    assert_eq!(Fixed::from_raw(-RAW_LIMIT).saturating_sub(Fixed::one()), Fixed::from_raw(-RAW_LIMIT));
    assert_eq!(max.saturating_mul(Fixed::from_int(2)), max);
    assert_eq!(Fixed::from_raw(i128::MAX).saturating_add(Fixed::zero()), max);
    assert_eq!(Fixed::from_raw(i128::MIN).saturating_mul(Fixed::one()), Fixed::from_raw(-RAW_LIMIT));
    assert_eq!(max.saturating_mul(max), max);
    assert_eq!(max.saturating_mul(Fixed::from_raw(-RAW_LIMIT)), Fixed::from_raw(-RAW_LIMIT));
}

#[test]
fn rounding_to_integers_goes_half_away_from_zero() {
    assert_eq!(Fixed::from_raw(2_500_000_000_000_000_000).round_i32(), 3);
    assert_eq!(Fixed::from_raw(-2_500_000_000_000_000_000).round_i32(), -3);
    assert_eq!(Fixed::from_raw(2_499_999_999_999_999_999).round_i32(), 2);
    assert_eq!(Fixed::from_raw(RAW_LIMIT).round_i32(), i32::MAX);
    let back: i32 = Fixed::from_raw(-1_600_000_000_000_000_000).to_p();
    assert_eq!(back, -2);
    assert_eq!(<Fixed as FromPrimitive<i32>>::from_p(-3), Fixed::from_raw(-3_000_000_000_000_000_000));
}

#[test]
fn integer_values_round_trip_through_the_engine() {
    for n in [i32::MIN, -20, -1, 0, 1, 20, i32::MAX] {
        assert_eq!(i32::from_s(n.to_s()), n);
    }
    assert_eq!(20i32.to_s(), Fixed::from_int(20));
}

#[test]
fn num_steps_rounds_the_duration_in_samples() {
    let rate = Fixed::from_int(100);
    assert_eq!(linear(100).num_steps(rate), 10);
    assert_eq!(linear(15).num_steps(rate), 2);
    assert_eq!(linear(14).num_steps(rate), 1);
    assert_eq!(linear(0).num_steps(rate), 1);
    assert_eq!(SmoothingStyle::NoSmoothing.num_steps(rate), 1);
    assert_eq!(linear(100).num_steps(Fixed::from_int(48_000)), 4800);
    assert_eq!(SmoothingStyle::Exponential(Fixed::from_int(250)).num_steps(rate), 25);
}

#[test]
fn oversampling_aware_scales_the_sample_rate() {
    let style = SmoothingStyle::OversamplingAware(Fixed::from_int(4), Box::new(linear(100)));
    assert_eq!(style.num_steps(Fixed::from_int(100)), 40);
    let unscaled = SmoothingStyle::OversamplingAware(Fixed::one(), Box::new(linear(100)));
    assert_eq!(unscaled.num_steps(Fixed::from_int(100)), 10);
}

#[test]
fn linear_step_size_and_closed_form() {
    let style = linear(100);
    let start = Fixed::from_raw(400_000_000_000_000_000);
    let target = Fixed::from_raw(800_000_000_000_000_000);
    let step = style.step_size(start, target, 15);
    assert_eq!(step, Fixed::from_raw(26_666_666_666_666_666));
    assert_eq!(style.next_step(start, target, step, 15), Fixed::from_raw(799_999_999_999_999_990));
    assert_eq!(style.next(start, target, step), Fixed::from_raw(426_666_666_666_666_666));
    assert_eq!(style.step_size(Fixed::from_int(10), Fixed::from_int(20), 10), Fixed::one());
}

#[test]
fn exponential_factor_leaves_the_residual_after_its_steps() {
    let style = SmoothingStyle::Exponential(Fixed::from_int(100));
    let factor = style.step_size(Fixed::from_int(10), Fixed::from_int(20), 10);
    let reached = style.next_step(Fixed::one(), Fixed::zero(), factor, 10);
    assert!(reached.raw <= 100_000_000_000_000);
    let above = style.next_step(Fixed::one(), Fixed::zero(), Fixed::from_raw(factor.raw + 1), 10);
    assert!(above.raw > 100_000_000_000_000);
    assert!(factor.raw > 398_000_000_000_000_000 && factor.raw < 398_200_000_000_000_000);
}

#[test]
fn logarithmic_factor_does_not_overshoot() {
    let style = SmoothingStyle::Logarithmic(Fixed::from_int(100));
    let start = Fixed::from_int(10);
    let target = Fixed::from_int(20);
    let factor = style.step_size(start, target, 10);
    let end = style.next_step(start, target, factor, 10);
    assert!(end.raw <= target.raw);
    let past = style.next_step(start, target, Fixed::from_raw(factor.raw + 1), 10);
    assert!(past.raw > target.raw);
    assert!(factor.raw > 1_071_000_000_000_000_000 && factor.raw < 1_072_000_000_000_000_000);
}

#[test]
fn logarithmic_descending_and_negative_ramps() {
    let mut down: Smoother<Fixed> =
        ramp(SmoothingStyle::Logarithmic(Fixed::from_int(100)), Fixed::from_int(20), Fixed::from_int(10));
    let mut last = Fixed::from_int(20);
    for _ in 0..9 {
        let v = down.next();
        assert!(v.raw < last.raw && v.raw > Fixed::from_int(10).raw);
        last = v;
    }
    assert_eq!(down.next(), Fixed::from_int(10));

    let mut neg: Smoother<Fixed> =
        ramp(SmoothingStyle::Logarithmic(Fixed::from_int(100)), Fixed::from_int(-10), Fixed::from_int(-20));
    let mid = neg.next();
    assert!(mid.raw < Fixed::from_int(-10).raw && mid.raw > Fixed::from_int(-20).raw);
    neg.next_step(20);
    assert_eq!(neg.next(), Fixed::from_int(-20));
}

#[test]
fn exponential_reaches_target_exactly_on_time() {
    let mut smoother: Smoother<Fixed> =
        ramp(SmoothingStyle::Exponential(Fixed::from_int(100)), Fixed::from_int(10), Fixed::from_int(20));
    assert_eq!(smoother.steps_left(), 10);
    let mut previous = Fixed::from_int(10);
    for _ in 0..9 {
        let v = smoother.next();
        assert!(v.raw > previous.raw && v.raw < Fixed::from_int(20).raw);
        previous = v;
    }
    assert!(smoother.is_smoothing());
    assert_eq!(smoother.next(), Fixed::from_int(20));
    assert!(!smoother.is_smoothing());
}

#[test]
fn linear_ramp_passes_every_integer() {
    let mut smoother: Smoother<Fixed> = ramp(linear(100), Fixed::from_int(10), Fixed::from_int(20));
    for expected in 11..=20 {
        assert_eq!(smoother.next(), Fixed::from_int(expected));
    }
    assert_eq!(smoother.steps_left(), 0);
}

#[test]
fn long_integer_ramp_rounds_to_the_target_before_the_last_call() {
    let mut smoother: Smoother<i32> = ramp(linear(300), 10, 20);
    assert_eq!(smoother.steps_left(), 30);
    for _ in 0..28 {
        smoother.next();
    }
    assert_eq!(smoother.next(), 20);
    assert!(smoother.is_smoothing());
    assert_eq!(smoother.next(), 20);
    assert!(!smoother.is_smoothing());
}

#[test]
fn idle_smoother_keeps_returning_the_target() {
    let mut smoother: Smoother<Fixed> = Smoother::new(linear(100));
    smoother.reset(Fixed::from_int(5));
    for _ in 0..4 {
        assert_eq!(smoother.next(), Fixed::from_int(5));
        assert_eq!(smoother.previous_value(), Fixed::from_int(5));
        assert_eq!(smoother.steps_left(), 0);
    }
    assert_eq!(smoother.next_step(3), Fixed::from_int(5));
}

#[test]
fn new_and_none_start_at_rest_on_zero() {
    let mut smoother: Smoother<i32> = Smoother::none();
    assert!(!smoother.is_smoothing());
    assert_eq!(smoother.next(), 0);
    assert_eq!(smoother.previous_value(), 0);
    smoother.set_target(Fixed::from_int(48_000), 7);
    assert_eq!(smoother.steps_left(), 1);
    assert_eq!(smoother.next(), 7);
    assert_eq!(smoother.next(), 7);
}

#[test]
fn skipping_matches_single_steps() {
    for k in 1..=10u32 {
        let mut skipped: Smoother<Fixed> =
            ramp(SmoothingStyle::Exponential(Fixed::from_int(100)), Fixed::from_int(10), Fixed::from_int(20));
        let mut stepped: Smoother<Fixed> =
            ramp(SmoothingStyle::Exponential(Fixed::from_int(100)), Fixed::from_int(10), Fixed::from_int(20));
        let a = skipped.next_step(k);
        let mut b = Fixed::zero();
        for _ in 0..k {
            b = stepped.next();
        }
        assert_eq!(a, b);
        assert_eq!(skipped.steps_left(), stepped.steps_left());
        assert_eq!(skipped.previous_value(), stepped.previous_value());
        for _ in k..10 {
            assert_eq!(skipped.next(), stepped.next());
        }
    }
}

#[test]
fn skipping_past_the_end_snaps_to_target() {
    let mut smoother: Smoother<i32> = ramp(linear(100), 10, 20);
    assert_eq!(smoother.next_step(25), 20);
    assert_eq!(smoother.steps_left(), 0);
    assert_eq!(smoother.previous_value(), 20);
}

#[test]
fn block_matches_single_calls() {
    for len in [0usize, 3, 9, 10, 16] {
        let mut by_block: Smoother<i32> = ramp(SmoothingStyle::Logarithmic(Fixed::from_int(100)), 10, 20);
        let mut by_call: Smoother<i32> = ramp(SmoothingStyle::Logarithmic(Fixed::from_int(100)), 10, 20);
        let mut block = vec![0i32; len];
        by_block.next_block_exact(&mut block);
        let calls: Vec<i32> = (0..len).map(|_| by_call.next()).collect();
        assert_eq!(block, calls);
        assert_eq!(by_block.steps_left(), by_call.steps_left());
        assert_eq!(by_block.previous_value(), by_call.previous_value());
    }
}

#[test]
fn partial_block_leaves_the_rest() {
    let mut smoother: Smoother<Fixed> = ramp(linear(100), Fixed::from_int(10), Fixed::from_int(20));
    let mut block = vec![Fixed::from_int(99); 8];
    smoother.next_block(&mut block, 4);
    assert_eq!(
        block,
        vec![
            Fixed::from_int(11),
            Fixed::from_int(12),
            Fixed::from_int(13),
            Fixed::from_int(14),
            Fixed::from_int(99),
            Fixed::from_int(99),
            Fixed::from_int(99),
            Fixed::from_int(99),
        ]
    );
    assert_eq!(smoother.steps_left(), 6);
}

#[test]
fn mapped_block_calls_the_mapping_for_every_index() {
    let mut smoother: Smoother<Fixed> = ramp(linear(30), Fixed::from_int(10), Fixed::from_int(13));
    let mut block = vec![Fixed::zero(); 6];
    smoother.next_block_exact_mapped(&mut block, |i, v| v.saturating_add(Fixed::from_int(i as i32 * 100)));
    let expected: Vec<Fixed> = [11, 112, 213, 313, 413, 513].iter().map(|n| Fixed::from_int(*n)).collect();
    assert_eq!(block, expected);
    assert!(!smoother.is_smoothing());

    let mut partial = vec![Fixed::from_int(-1); 4];
    smoother.next_block_mapped(&mut partial, 2, |_, v| v);
    assert_eq!(partial, vec![Fixed::from_int(13), Fixed::from_int(13), Fixed::from_int(-1), Fixed::from_int(-1)]);
}

#[test]
fn style_can_be_swapped_for_a_ramp() {
    let mut smoother: Smoother<i32> = Smoother::new(SmoothingStyle::NoSmoothing);
    smoother.reset(0);
    smoother.set_style(linear(50));
    assert!(matches!(smoother.style(), SmoothingStyle::Linear(_)));
    smoother.set_target(Fixed::from_int(100), 10);
    assert_eq!(smoother.steps_left(), 5);
    let values: Vec<i32> = (0..5).map(|_| smoother.next()).collect();
    assert_eq!(values, vec![2, 4, 6, 8, 10]);
}

#[test]
fn fixed_product_keeps_all_eighteen_digits() {
    let a = Fixed::from_raw(1_234_567_890_123_456_789);
    let b = Fixed::from_raw(9_876_543_210_987_654_321);
    // 1.234567890123456789 * 9.876543210987654321 = 12.193263113702179522374638011112635269
    assert_eq!(a.saturating_mul(b), Fixed::from_raw(12_193_263_113_702_179_522));
    assert_eq!(
        Fixed::from_raw(-1_234_567_890_123_456_789).saturating_mul(b),
        Fixed::from_raw(-12_193_263_113_702_179_522)
    );
}

#[test]
fn long_linear_ramp_lands_on_target() {
    let style = linear(1000);
    let n = style.num_steps(Fixed::from_int(48_000));
    assert_eq!(n, 48_000);
    let start = Fixed::zero();
    let target = Fixed::one();
    let step = style.step_size(start, target, n);
    assert_eq!(step, Fixed::from_raw(20_833_333_333_333));
    let end = style.next_step(start, target, step, n);
    assert!((target.raw - end.raw).abs() < n as i128);

    let mut smoother: Smoother<Fixed> = Smoother::new(style);
    smoother.reset(start);
    smoother.set_target(Fixed::from_int(48_000), target);
    let mut last = start;
    for _ in 0..(n - 1) {
        last = smoother.next();
    }
    let gap = target.raw - last.raw;
    assert!(gap > 0 && gap < step.raw + n as i128);
    assert_eq!(smoother.next(), target);
}

#[test]
fn iter_yields_the_values_of_next() {
    let mut by_iter: Smoother<i32> = ramp(linear(50), 0, 10);
    let mut by_call: Smoother<i32> = ramp(linear(50), 0, 10);
    let mut it = by_iter.iter();
    for _ in 0..7 {
        assert_eq!(it.next(), Some(by_call.next()));
    }
    assert_eq!(by_iter.steps_left(), 0);
    assert_eq!(by_iter.previous_value(), 10);
}

#[test]
fn exponential_retarget_with_same_count_reuses_the_factor() {
    let style = SmoothingStyle::Exponential(Fixed::from_int(100));
    let mut smoother: Smoother<Fixed> = Smoother::new(style.clone());
    smoother.reset(Fixed::from_int(1));
    smoother.set_target(Fixed::from_int(100), Fixed::from_int(5));
    let first = smoother.next();
    smoother.set_target(Fixed::from_int(100), Fixed::from_int(-3));
    let second = smoother.next();

    let factor = style.step_size(Fixed::zero(), Fixed::zero(), 10);
    assert_eq!(first, style.next(Fixed::from_int(1), Fixed::from_int(5), factor));
    assert_eq!(second, style.next(first, Fixed::from_int(-3), factor));
    smoother.set_style(linear(100));
    smoother.set_target(Fixed::from_int(100), Fixed::from_int(7));
    assert_eq!(smoother.steps_left(), 10);
}

#[test]
fn logarithmic_factor_is_one_between_equal_magnitudes() {
    let style = SmoothingStyle::Logarithmic(Fixed::from_int(100));
    let x = Fixed::from_raw(400_000_000_000_000_000);
    assert_eq!(style.step_size(x, x, 1), Fixed::one());
    assert_eq!(style.step_size(x, x, 15), Fixed::one());
    assert_eq!(style.step_size(Fixed::from_int(-3), Fixed::from_int(3), 7), Fixed::one());
    let up = style.step_size(Fixed::from_int(10), Fixed::from_int(20), 10);
    assert!(up.raw > Fixed::one().raw);
    let down = style.step_size(Fixed::from_int(20), Fixed::from_int(10), 10);
    assert!(down.raw < Fixed::one().raw);
}

#[test]
fn long_durations_are_not_capped() {
    let rate = Fixed::from_int(192_000);
    assert_eq!(linear(60_000).num_steps(rate), 11_520_000);
    let oversampled = SmoothingStyle::OversamplingAware(Fixed::from_int(4), Box::new(linear(12_000)));
    assert_eq!(oversampled.num_steps(rate), 9_216_000);
    assert_eq!(linear(i32::MAX).num_steps(rate), 0x7fff_ffff);
}

#[test]
fn oversampling_amount_can_change_live() {
    let style = SmoothingStyle::OversamplingAware(Fixed::one(), Box::new(linear(100)));
    let mut smoother: Smoother<Fixed> = Smoother::new(style);
    smoother.set_target(Fixed::from_int(100), Fixed::from_int(1));
    assert_eq!(smoother.steps_left(), 10);
    smoother.set_oversampling(Fixed::from_int(4));
    smoother.set_target(Fixed::from_int(100), Fixed::from_int(2));
    assert_eq!(smoother.steps_left(), 40);

    let mut plain: Smoother<Fixed> = Smoother::new(linear(100));
    plain.set_oversampling(Fixed::from_int(4));
    plain.set_target(Fixed::from_int(100), Fixed::from_int(2));
    assert_eq!(plain.steps_left(), 10);
}
