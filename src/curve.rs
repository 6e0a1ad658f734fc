//! The curve engine: stateless step counts, step sizes and single or multiple steps for each
//! smoothing style.

use vstd::prelude::*;
use vstd::arithmetic::div_mod::{
    lemma_div_is_ordered, lemma_fundamental_div_mod, lemma_fundamental_div_mod_converse,
};

use crate::fixed::{
    add_raw, clip, div_round, div_trunc, div_trunc_wide, mul_magnitudes, mul_raw, saturate,
    sub_raw, Fixed, FRAC_SCALE, RAW_LIMIT,
};

verus! {

/// The largest step count a style produces, so that a count always fits an `i32`.
pub const MAX_STEPS: u32 = 0x7fff_ffff;

/// The share of the distance that an exponential curve has left after its last scheduled step,
/// in raw units (0.0001).
pub const EXP_RESIDUAL: i128 = 100_000_000_000_000;

/// Raw units of the product of sample rate and milliseconds per step: `FRAC_SCALE` times 1000 ms.
pub const STEP_DIVISOR: i128 = 1_000_000_000_000_000_000_000;

/// Controls if and how parameters get smoothed.
#[derive(Debug)]
pub enum SmoothingStyle {
    /// Wraps another style for a parameter used in an oversampled part of a plugin. The factor is
    /// the oversampling amount (one means none); it scales the sample rate when the number of
    /// steps is computed.
    OversamplingAware(Fixed, Box<SmoothingStyle>),
    /// No smoothing: the target is reached in one step.
    NoSmoothing,
    /// Constant increment per step; reaches the target in this many milliseconds.
    Linear(Fixed),
    /// Constant factor per step; reaches the target in this many milliseconds. Start and target
    /// must be nonzero and share a sign.
    Logarithmic(Fixed),
    /// Single-pole filter toward the target; covers 99.99% of the distance in this many
    /// milliseconds and snaps to the target on the last step.
    Exponential(Fixed),
}

/// Steps for a duration of `ms` milliseconds at `sample_rate`, both raw: their product (exact,
/// truncated to raw units, never saturated) over 1000, rounded to the nearest whole step, at
/// least one and at most `MAX_STEPS`.
pub open spec fn steps_for(sample_rate: int, ms: int) -> int {
    let a = saturate(sample_rate);
    let m = saturate(ms);
    if a <= 0 || m <= 0 {
        1
    } else {
        let q = div_round((a * m) / (FRAC_SCALE as int), STEP_DIVISOR as int);
        if q < 1 {
            1
        } else if q > MAX_STEPS {
            MAX_STEPS as int
        } else {
            q
        }
    }
}

/// `c` multiplied `n` times by the factor `f` in fixed-point arithmetic.
pub open spec fn mul_run(c: int, f: int, n: nat) -> int
    decreases n,
{
    if n == 0 {
        c
    } else {
        mul_raw(mul_run(c, f, (n - 1) as nat), f)
    }
}

/// `f` is the factor at which `n` multiplications starting from `a` cross `b`: with `f` the run
/// ends at or below `b`, with the next larger factor above it.
pub open spec fn is_crossing_factor(a: int, b: int, n: nat, f: int) -> bool {
    &&& 0 <= f <= RAW_LIMIT
    &&& mul_run(a, f, n) <= b
    &&& (f == RAW_LIMIT || mul_run(a, f + 1, n) > b)
}

/// The crossing factor for `n` multiplications from `a` to `b`; for `a, b >= 0` and `n >= 1` it
/// exists (`lemma_crossing_exists`) and is unique (`lemma_crossing_unique`).
pub open spec fn factor_for(a: int, b: int, n: nat) -> int {
    choose|f: int| is_crossing_factor(a, b, n, f)
}

/// The logarithmic factor from `start` to `target` in `n` steps: exactly one between equal
/// magnitudes, else the crossing factor of the magnitudes.
pub open spec fn log_factor(start: int, target: int, n: nat) -> int {
    if abs_raw(start) == abs_raw(target) {
        FRAC_SCALE as int
    } else {
        factor_for(abs_raw(start), abs_raw(target), n)
    }
}

/// The largest factor up to `f` whose run stays at or below `b` (zero if none).
pub open spec fn last_at_or_below(a: int, b: int, n: nat, f: int) -> int
    decreases f,
{
    if f <= 0 {
        0
    } else if mul_run(a, f, n) <= b {
        f
    } else {
        last_at_or_below(a, b, n, f - 1)
    }
}

/// A run multiplied by zero is zero.
pub proof fn lemma_mul_run_zero(a: int, n: nat)
    requires
        n >= 1,
    ensures
        mul_run(a, 0, n) == 0,
{
    let prev = mul_run(a, 0, (n - 1) as nat);
    let sp = saturate(prev);
    assert(saturate(0) == 0);
    assert(sp * 0 == 0) by (nonlinear_arith);
}

/// Multiplying by one changes nothing.
pub proof fn lemma_mul_run_one(a: int, n: nat)
    requires
        0 <= a <= RAW_LIMIT,
    ensures
        mul_run(a, FRAC_SCALE as int, n) == a,
    decreases n,
{
    if n > 0 {
        lemma_mul_run_one(a, (n - 1) as nat);
        lemma_fundamental_div_mod_converse(a * FRAC_SCALE, FRAC_SCALE as int, a, 0);
    }
}

proof fn lemma_last_at_or_below(a: int, b: int, n: nat, f: int)
    requires
        0 <= b,
        n >= 1,
        0 <= f <= RAW_LIMIT,
        f == RAW_LIMIT || mul_run(a, f + 1, n) > b,
    ensures
        is_crossing_factor(a, b, n, last_at_or_below(a, b, n, f)),
    decreases f,
{
    lemma_mul_run_zero(a, n);
    if f > 0 && mul_run(a, f, n) > b {
        lemma_last_at_or_below(a, b, n, f - 1);
    }
}

/// For nonnegative `b` and at least one step, a crossing factor exists.
pub proof fn lemma_crossing_exists(a: int, b: int, n: nat)
    requires
        0 <= b,
        n >= 1,
    ensures
        is_crossing_factor(a, b, n, factor_for(a, b, n)),
{
    lemma_last_at_or_below(a, b, n, RAW_LIMIT as int);
}

/// The crossing factor is below one when `b < a` and at least one when `b >= a`.
pub proof fn lemma_crossing_side(a: int, b: int, n: nat, f: int)
    requires
        0 <= a <= RAW_LIMIT,
        is_crossing_factor(a, b, n, f),
    ensures
        b < a ==> f < FRAC_SCALE,
        b >= a ==> f >= FRAC_SCALE,
{
    lemma_mul_run_one(a, n);
    if b < a && f >= FRAC_SCALE {
        lemma_mul_run_monotone(a, FRAC_SCALE as int, f, n);
    }
    if b >= a && f < FRAC_SCALE {
        lemma_mul_run_monotone(a, f + 1, FRAC_SCALE as int, n);
    }
}

/// Fixed-point products of nonnegative values grow with both factors.
pub proof fn lemma_mul_raw_monotone(c1: int, c2: int, f1: int, f2: int)
    requires
        0 <= c1 <= c2,
        0 <= f1 <= f2,
    ensures
        0 <= mul_raw(c1, f1) <= mul_raw(c2, f2),
{
    let d1 = saturate(c1);
    let d2 = saturate(c2);
    let g1 = saturate(f1);
    let g2 = saturate(f2);
    assert(0 <= d1 * g1 <= d2 * g2) by (nonlinear_arith)
        requires
            0 <= d1 <= d2,
            0 <= g1 <= g2,
    ;
    lemma_div_is_ordered(d1 * g1, d2 * g2, FRAC_SCALE as int);
    lemma_div_is_ordered(0, d1 * g1, FRAC_SCALE as int);
}

/// From a nonnegative start, a larger factor never ends lower.
pub proof fn lemma_mul_run_monotone(a: int, f1: int, f2: int, n: nat)
    requires
        0 <= a,
        0 <= f1 <= f2,
    ensures
        0 <= mul_run(a, f1, n) <= mul_run(a, f2, n),
    decreases n,
{
    if n > 0 {
        let m = (n - 1) as nat;
        lemma_mul_run_monotone(a, f1, f2, m);
        lemma_mul_raw_monotone(mul_run(a, f1, m), mul_run(a, f2, m), f1, f2);
    }
}

/// There is at most one crossing factor.
pub proof fn lemma_crossing_unique(a: int, b: int, n: nat, f1: int, f2: int)
    requires
        0 <= a,
        is_crossing_factor(a, b, n, f1),
        is_crossing_factor(a, b, n, f2),
    ensures
        f1 == f2,
{
    if f1 < f2 {
        lemma_mul_run_monotone(a, f1 + 1, f2, n);
    } else if f2 < f1 {
        lemma_mul_run_monotone(a, f2 + 1, f1, n);
    }
}

/// Magnitude of a raw value, read in range.
pub open spec fn abs_raw(x: int) -> int {
    if saturate(x) < 0 {
        -saturate(x)
    } else {
        saturate(x)
    }
}

/// Linear step: the distance divided by the number of steps, truncated toward zero.
pub open spec fn linear_step(start: int, target: int, n: int) -> int {
    saturate(div_trunc(saturate(target) - saturate(start), n))
}

/// One exponential step: `current * f + target * (1 - f)`.
pub open spec fn exp_next(current: int, target: int, f: int) -> int {
    add_raw(mul_raw(current, f), mul_raw(target, sub_raw(FRAC_SCALE as int, f)))
}

impl Clone for SmoothingStyle {
    fn clone(&self) -> (r: SmoothingStyle)
        ensures
            r == *self,
        decreases self,
    {
        match self {
            SmoothingStyle::OversamplingAware(times, inner) => {
                let inner_copy: SmoothingStyle = (**inner).clone();
                SmoothingStyle::OversamplingAware(*times, Box::new(inner_copy))
            },
            SmoothingStyle::NoSmoothing => SmoothingStyle::NoSmoothing,
            SmoothingStyle::Linear(ms) => SmoothingStyle::Linear(*ms),
            SmoothingStyle::Logarithmic(ms) => SmoothingStyle::Logarithmic(*ms),
            SmoothingStyle::Exponential(ms) => SmoothingStyle::Exponential(*ms),
        }
    }
}

impl SmoothingStyle {
    /// Number of steps the style takes at `sample_rate` (raw).
    pub open spec fn num_steps_spec(&self, sample_rate: int) -> int
        decreases self,
    {
        match self {
            SmoothingStyle::OversamplingAware(times, inner) => inner.num_steps_spec(
                mul_raw(sample_rate, times.raw as int),
            ),
            SmoothingStyle::NoSmoothing => 1,
            SmoothingStyle::Linear(ms) => steps_for(sample_rate, ms.raw as int),
            SmoothingStyle::Logarithmic(ms) => steps_for(sample_rate, ms.raw as int),
            SmoothingStyle::Exponential(ms) => steps_for(sample_rate, ms.raw as int),
        }
    }

    /// The step size for going from `start` to `target` in `n` steps: an increment for `Linear`;
    /// for `Logarithmic` exactly one between equal magnitudes, else the factor at which `n`
    /// multiplications of the magnitude of `start` cross the magnitude of `target`; for
    /// `Exponential` the factor at which `n` multiplications of one
    /// cross the residual 0.0001.
    pub open spec fn step_size_spec(&self, start: int, target: int, n: int) -> int
        decreases self,
    {
        match self {
            SmoothingStyle::OversamplingAware(_, inner) => inner.step_size_spec(start, target, n),
            SmoothingStyle::NoSmoothing => 0,
            SmoothingStyle::Linear(_) => linear_step(start, target, n),
            SmoothingStyle::Logarithmic(_) => log_factor(start, target, n as nat),
            SmoothingStyle::Exponential(_) => factor_for(
                FRAC_SCALE as int,
                EXP_RESIDUAL as int,
                n as nat,
            ),
        }
    }

    /// One step from `current` toward `target`.
    pub open spec fn next_spec(&self, current: int, target: int, step: int) -> int
        decreases self,
    {
        match self {
            SmoothingStyle::OversamplingAware(_, inner) => inner.next_spec(current, target, step),
            SmoothingStyle::NoSmoothing => target,
            SmoothingStyle::Linear(_) => add_raw(current, step),
            SmoothingStyle::Logarithmic(_) => mul_raw(current, step),
            SmoothingStyle::Exponential(_) => exp_next(current, target, step),
        }
    }

    /// The step size depends on the step count alone, not on start or target.
    pub open spec fn step_size_is_count_only(&self) -> bool
        decreases self,
    {
        match self {
            SmoothingStyle::OversamplingAware(_, inner) => inner.step_size_is_count_only(),
            SmoothingStyle::NoSmoothing => true,
            SmoothingStyle::Exponential(_) => true,
            _ => false,
        }
    }

    /// The style with its oversampling factor replaced by `times`; other styles are unchanged.
    pub open spec fn with_oversampling_spec(&self, times: Fixed) -> SmoothingStyle {
        match self {
            SmoothingStyle::OversamplingAware(_, inner) => SmoothingStyle::OversamplingAware(
                times,
                *inner,
            ),
            _ => *self,
        }
    }

    /// The style is `Logarithmic`, possibly wrapped.
    pub open spec fn is_logarithmic(&self) -> bool
        decreases self,
    {
        match self {
            SmoothingStyle::OversamplingAware(_, inner) => inner.is_logarithmic(),
            SmoothingStyle::Logarithmic(_) => true,
            _ => false,
        }
    }

    /// The style is `Exponential`, possibly wrapped.
    pub open spec fn is_exponential(&self) -> bool
        decreases self,
    {
        match self {
            SmoothingStyle::OversamplingAware(_, inner) => inner.is_exponential(),
            SmoothingStyle::Exponential(_) => true,
            _ => false,
        }
    }

    /// The style is `Linear`, possibly wrapped.
    pub open spec fn is_linear(&self) -> bool
        decreases self,
    {
        match self {
            SmoothingStyle::OversamplingAware(_, inner) => inner.is_linear(),
            SmoothingStyle::Linear(_) => true,
            _ => false,
        }
    }

    /// `k` single steps from `current` toward `target`.
    pub open spec fn next_n_spec(&self, current: int, target: int, step: int, k: nat) -> int
        decreases k,
    {
        if k == 0 {
            current
        } else {
            self.next_spec(self.next_n_spec(current, target, step, (k - 1) as nat), target, step)
        }
    }
}

/// Exec form of `steps_for`.
fn steps_for_exec(sample_rate: Fixed, ms: Fixed) -> (r: u32)
    ensures
        r == steps_for(sample_rate.raw as int, ms.raw as int),
{
    let a: i128 = clip(sample_rate.raw);
    let m: i128 = clip(ms.raw);
    if a <= 0 || m <= 0 {
        1
    } else {
        let p: i128 = mul_magnitudes(a, m);
        proof {
            assert(a * m <= RAW_LIMIT * RAW_LIMIT) by (nonlinear_arith)
                requires
                    0 <= a <= RAW_LIMIT,
                    0 <= m <= RAW_LIMIT,
            ;
            lemma_div_is_ordered(a * m, RAW_LIMIT * RAW_LIMIT, FRAC_SCALE as int);
            assert((RAW_LIMIT * RAW_LIMIT) / (FRAC_SCALE as int) == 81_000_000_000_000_000_000_000_000_000_000_000_000int);
        }
        let q: i128 = (p + STEP_DIVISOR / 2) / STEP_DIVISOR;
        if q < 1 {
            1
        } else if q > MAX_STEPS as i128 {
            MAX_STEPS
        } else {
            q as u32
        }
    }
}

/// Multiplies `a` by `f`, `n` times.
fn mul_run_exec(a: Fixed, f: Fixed, n: u32) -> (r: Fixed)
    ensures
        r.raw == mul_run(a.raw as int, f.raw as int, n as nat),
{
    let mut c = a;
    let mut i: u32 = 0;
    while i < n
        invariant
            i <= n,
            c.raw == mul_run(a.raw as int, f.raw as int, i as nat),
        decreases n - i,
    {
        c = c.saturating_mul(f);
        i = i + 1;
    }
    c
}

/// Bisects for the factor at which `n` multiplications from `a` cross `b`. Factors below one
/// and above one are told apart first, which halves the search for falling curves.
fn crossing_factor(a: Fixed, b: Fixed, n: u32) -> (r: Fixed)
    requires
        n >= 1,
        0 <= a.raw <= RAW_LIMIT,
        0 <= b.raw <= RAW_LIMIT,
    ensures
        is_crossing_factor(a.raw as int, b.raw as int, n as nat, r.raw as int),
        r.raw == factor_for(a.raw as int, b.raw as int, n as nat),
{
    let mut lo: i128 = 0;
    let mut hi: i128 = FRAC_SCALE;
    proof {
        lemma_mul_run_zero(a.raw as int, n as nat);
    }
    if mul_run_exec(a, Fixed::one(), n).raw <= b.raw {
        if mul_run_exec(a, Fixed::from_raw(RAW_LIMIT), n).raw <= b.raw {
            proof {
                lemma_factor_is_the_crossing(a.raw as int, b.raw as int, n as nat, RAW_LIMIT as int);
            }
            return Fixed::from_raw(RAW_LIMIT);
        }
        lo = FRAC_SCALE;
        hi = RAW_LIMIT;
    }
    while hi - lo > 1
        invariant
            0 <= lo < hi <= RAW_LIMIT,
            mul_run(a.raw as int, lo as int, n as nat) <= b.raw,
            mul_run(a.raw as int, hi as int, n as nat) > b.raw,
        decreases hi - lo,
    {
        let mid: i128 = lo + (hi - lo) / 2;
        let m = mul_run_exec(a, Fixed::from_raw(mid), n);
        if m.raw <= b.raw {
            lo = mid;
        } else {
            hi = mid;
        }
    }
    proof {
        lemma_factor_is_the_crossing(a.raw as int, b.raw as int, n as nat, lo as int);
    }
    Fixed::from_raw(lo)
}

/// A crossing factor is the one `factor_for` names.
proof fn lemma_factor_is_the_crossing(a: int, b: int, n: nat, f: int)
    requires
        0 <= a,
        is_crossing_factor(a, b, n, f),
    ensures
        factor_for(a, b, n) == f,
{
    lemma_crossing_unique(a, b, n, factor_for(a, b, n), f);
}

/// Magnitude, read in range.
fn abs_fixed(x: Fixed) -> (r: Fixed)
    ensures
        r.raw == abs_raw(x.raw as int),
        0 <= r.raw <= RAW_LIMIT,
{
    let c: i128 = clip(x.raw);
    if c < 0 {
        Fixed::from_raw(-c)
    } else {
        Fixed::from_raw(c)
    }
}

/// A wrapping style steps exactly as the style it wraps.
pub proof fn lemma_next_n_delegates(
    style: &SmoothingStyle,
    current: int,
    target: int,
    step: int,
    k: nat,
)
    requires
        style is OversamplingAware,
    ensures
        style.next_n_spec(current, target, step, k) == style->OversamplingAware_1.next_n_spec(
            current,
            target,
            step,
            k,
        ),
    decreases k,
{
    if k > 0 {
        lemma_next_n_delegates(style, current, target, step, (k - 1) as nat);
    }
}

/// `k >= 1` linear steps land where one step of `k` times the size lands.
pub proof fn lemma_linear_closed_form(
    style: &SmoothingStyle,
    current: int,
    target: int,
    step: int,
    k: nat,
)
    requires
        style is Linear,
        k >= 1,
    ensures
        style.next_n_spec(current, target, step, k) == saturate(saturate(current) + saturate(step)
            * k),
    decreases k,
{
    let j = (k - 1) as nat;
    let c = saturate(current);
    let s = saturate(step);
    assert(style.next_n_spec(current, target, step, k) == add_raw(
        style.next_n_spec(current, target, step, j),
        step,
    ));
    if k == 1 {
        assert(s * k == s);
    } else {
        lemma_linear_closed_form(style, current, target, step, j);
        assert(s * k == s * j + s) by (nonlinear_arith)
            requires
                k == j + 1,
        ;
        let x = c + s * j;
        if x > RAW_LIMIT {
            assert(s > 0) by (nonlinear_arith)
                requires
                    s * j > 0,
                    j >= 1,
            ;
        } else if x < -RAW_LIMIT {
            assert(s < 0) by (nonlinear_arith)
                requires
                    s * j < 0,
                    j >= 1,
            ;
        }
    }
}

/// The linear increment is short of an exact share of the distance by less than one raw unit:
/// `n` increments cover the distance to within `n` raw units.
pub proof fn lemma_linear_step_error(start: int, target: int, n: int)
    requires
        n >= 1,
        n >= 2 || -RAW_LIMIT <= saturate(target) - saturate(start) <= RAW_LIMIT,
    ensures
        -RAW_LIMIT <= linear_step(start, target, n) <= RAW_LIMIT,
        -n < saturate(start) + linear_step(start, target, n) * n - saturate(target) < n,
{
    let d = saturate(target) - saturate(start);
    let e = if d >= 0 {
        d
    } else {
        -d
    };
    let q = e / n;
    lemma_fundamental_div_mod(e, n);
    assert(0 <= q) by (nonlinear_arith)
        requires
            e >= 0,
            n >= 1,
            q == e / n,
    ;
    assert(q * n <= e < q * n + n) by (nonlinear_arith)
        requires
            e == n * q + e % n,
            0 <= e % n < n,
    ;
    if n >= 2 {
        assert(q * 2 <= q * n) by (nonlinear_arith)
            requires
                q >= 0,
                n >= 2,
        ;
    } else {
        assert(q * n == q);
    }
    if d >= 0 {
        assert(div_trunc(d, n) == q);
    } else {
        assert(div_trunc(d, n) == -q);
        assert((-q) * n == -(q * n)) by (nonlinear_arith);
    }
}

/// A linear ramp of `k` steps with its own step size lands within `k` raw units of the target
/// (within about 2e-9 for any step count a style produces).
pub proof fn lemma_linear_lands(style: &SmoothingStyle, current: int, target: int, k: nat)
    requires
        style.is_linear(),
        k >= 1,
        k >= 2 || -RAW_LIMIT <= saturate(target) - saturate(current) <= RAW_LIMIT,
    ensures
        -k < style.next_n_spec(
            current,
            target,
            style.step_size_spec(current, target, k as int),
            k,
        ) - saturate(target) < k,
    decreases style,
{
    let step = style.step_size_spec(current, target, k as int);
    match style {
        SmoothingStyle::OversamplingAware(_, inner) => {
            lemma_next_n_delegates(style, current, target, step, k);
            lemma_linear_lands(inner, current, target, k);
        },
        _ => {
            lemma_linear_step_error(current, target, k as int);
            lemma_linear_closed_form(style, current, target, step, k);
        },
    }
}

/// For a style whose step size depends on the count alone, any start and target give the same.
pub proof fn lemma_count_only_step_size(
    style: &SmoothingStyle,
    start1: int,
    target1: int,
    start2: int,
    target2: int,
    n: int,
)
    requires
        style.step_size_is_count_only(),
    ensures
        style.step_size_spec(start1, target1, n) == style.step_size_spec(start2, target2, n),
    decreases style,
{
    match style {
        SmoothingStyle::OversamplingAware(_, inner) => {
            lemma_count_only_step_size(inner, start1, target1, start2, target2, n);
        },
        _ => {},
    }
}

impl SmoothingStyle {
    /// The number of steps to reach a target at `sample_rate`: the duration in samples, rounded,
    /// at least one. A wrapping style first scales the sample rate by its oversampling factor.
    pub fn num_steps(&self, sample_rate: Fixed) -> (r: u32)
        ensures
            r == self.num_steps_spec(sample_rate.raw as int),
            1 <= r <= MAX_STEPS,
        decreases self,
    {
        match self {
            SmoothingStyle::OversamplingAware(times, inner) => inner.num_steps(
                sample_rate.saturating_mul(*times),
            ),
            SmoothingStyle::NoSmoothing => 1,
            SmoothingStyle::Linear(ms) => steps_for_exec(sample_rate, *ms),
            SmoothingStyle::Logarithmic(ms) => steps_for_exec(sample_rate, *ms),
            SmoothingStyle::Exponential(ms) => steps_for_exec(sample_rate, *ms),
        }
    }

    /// This style with its oversampling factor replaced by `times`, for when the oversampling
    /// amount changes; a style that is not oversampling-aware is returned unchanged.
    pub fn with_oversampling(&self, times: Fixed) -> (r: SmoothingStyle)
        ensures
            r == self.with_oversampling_spec(times),
    {
        match self {
            SmoothingStyle::OversamplingAware(_, inner) => {
                let inner_copy: SmoothingStyle = (**inner).clone();
                SmoothingStyle::OversamplingAware(times, Box::new(inner_copy))
            },
            _ => self.clone(),
        }
    }

    /// Whether the step size depends on the step count alone, so that it can be reused.
    pub fn has_count_only_step_size(&self) -> (r: bool)
        ensures
            r == self.step_size_is_count_only(),
        decreases self,
    {
        match self {
            SmoothingStyle::OversamplingAware(_, inner) => inner.has_count_only_step_size(),
            SmoothingStyle::NoSmoothing => true,
            SmoothingStyle::Exponential(_) => true,
            _ => false,
        }
    }

    /// The step size for going from `start` to `target` in `num_steps` steps: an increment for
    /// `Linear`, a factor for `Logarithmic` and `Exponential`, zero for `NoSmoothing`.
    pub fn step_size(&self, start: Fixed, target: Fixed, num_steps: u32) -> (r: Fixed)
        requires
            num_steps >= 1,
        ensures
            r.raw == self.step_size_spec(start.raw as int, target.raw as int, num_steps as int),
            self.is_linear() && (num_steps >= 2 || -RAW_LIMIT <= saturate(target.raw as int)
                - saturate(start.raw as int) <= RAW_LIMIT) ==> -num_steps < saturate(
                start.raw as int,
            ) + r.raw * num_steps - saturate(target.raw as int) < num_steps,
            self.is_logarithmic() && abs_raw(start.raw as int) == abs_raw(target.raw as int)
                ==> r.raw == FRAC_SCALE,
            self.is_logarithmic() && abs_raw(start.raw as int) != abs_raw(target.raw as int)
                ==> is_crossing_factor(
                abs_raw(start.raw as int),
                abs_raw(target.raw as int),
                num_steps as nat,
                r.raw as int,
            ),
            self.is_logarithmic() && abs_raw(target.raw as int) < abs_raw(start.raw as int)
                ==> r.raw < FRAC_SCALE,
            self.is_logarithmic() && abs_raw(target.raw as int) >= abs_raw(start.raw as int)
                ==> r.raw >= FRAC_SCALE,
            self.is_exponential() ==> is_crossing_factor(
                FRAC_SCALE as int,
                EXP_RESIDUAL as int,
                num_steps as nat,
                r.raw as int,
            ) && 0 <= r.raw < FRAC_SCALE,
        decreases self,
    {
        match self {
            SmoothingStyle::OversamplingAware(_, inner) => inner.step_size(start, target, num_steps),
            SmoothingStyle::NoSmoothing => Fixed::zero(),
            SmoothingStyle::Linear(_) => {
                proof {
                    if num_steps >= 2 || -RAW_LIMIT <= saturate(target.raw as int) - saturate(
                        start.raw as int,
                    ) <= RAW_LIMIT {
                        lemma_linear_step_error(start.raw as int, target.raw as int, num_steps as int);
                    }
                }
                let d: i128 = clip(target.raw) - clip(start.raw);
                Fixed::from_raw(clip(div_trunc_wide(d, num_steps as i128)))
            },
            SmoothingStyle::Logarithmic(_) => {
                let a = abs_fixed(start);
                let b = abs_fixed(target);
                if a.raw == b.raw {
                    Fixed::one()
                } else {
                    let r = crossing_factor(a, b, num_steps);
                    proof {
                        lemma_crossing_side(a.raw as int, b.raw as int, num_steps as nat, r.raw as int);
                    }
                    r
                }
            },
            SmoothingStyle::Exponential(_) => {
                let r = crossing_factor(Fixed::one(), Fixed::from_raw(EXP_RESIDUAL), num_steps);
                proof {
                    lemma_crossing_side(
                        FRAC_SCALE as int,
                        EXP_RESIDUAL as int,
                        num_steps as nat,
                        r.raw as int,
                    );
                }
                r
            },
        }
    }

    /// One step from `current` toward `target` with a step size from `step_size`. Curves other
    /// than `Linear` and `NoSmoothing` may never reach the target; callers snap on the last step.
    pub fn next(&self, current: Fixed, target: Fixed, step_size: Fixed) -> (r: Fixed)
        ensures
            r.raw == self.next_spec(current.raw as int, target.raw as int, step_size.raw as int),
        decreases self,
    {
        match self {
            SmoothingStyle::OversamplingAware(_, inner) => inner.next(current, target, step_size),
            SmoothingStyle::NoSmoothing => target,
            SmoothingStyle::Linear(_) => current.saturating_add(step_size),
            SmoothingStyle::Logarithmic(_) => current.saturating_mul(step_size),
            SmoothingStyle::Exponential(_) => current.saturating_mul(step_size).saturating_add(
                target.saturating_mul(Fixed::one().saturating_sub(step_size)),
            ),
        }
    }

    /// `steps` steps at once; the result is exactly that of `steps` calls of `next`. `Linear` is
    /// computed in closed form. `Logarithmic` and `Exponential` take the steps one at a time: a
    /// power computed by squaring rounds differently from repeated single steps, and exact
    /// agreement is what lets a smoother that skips land in the very state that single steps
    /// reach. The cost is one multiplication per step skipped, as if those samples were produced.
    /// A linear ramp taken with its own step size lands within `steps` raw units of the target.
    pub fn next_step(&self, current: Fixed, target: Fixed, step_size: Fixed, steps: u32) -> (r:
        Fixed)
        requires
            steps >= 1,
        ensures
            r.raw == self.next_n_spec(
                current.raw as int,
                target.raw as int,
                step_size.raw as int,
                steps as nat,
            ),
            self.is_linear() && step_size.raw == self.step_size_spec(
                current.raw as int,
                target.raw as int,
                steps as int,
            ) && (steps >= 2 || -RAW_LIMIT <= saturate(target.raw as int) - saturate(
                current.raw as int,
            ) <= RAW_LIMIT) ==> -steps < r.raw - saturate(target.raw as int) < steps,
        decreases self,
    {
        proof {
            if self.is_linear() && step_size.raw == self.step_size_spec(
                current.raw as int,
                target.raw as int,
                steps as int,
            ) && (steps >= 2 || -RAW_LIMIT <= saturate(target.raw as int) - saturate(
                current.raw as int,
            ) <= RAW_LIMIT) {
                lemma_linear_lands(self, current.raw as int, target.raw as int, steps as nat);
            }
        }
        match self {
            SmoothingStyle::OversamplingAware(_, inner) => {
                proof {
                    lemma_next_n_delegates(
                        self,
                        current.raw as int,
                        target.raw as int,
                        step_size.raw as int,
                        steps as nat,
                    );
                }
                inner.next_step(current, target, step_size, steps)
            },
            SmoothingStyle::NoSmoothing => target,
            SmoothingStyle::Linear(_) => {
                proof {
                    lemma_linear_closed_form(
                        self,
                        current.raw as int,
                        target.raw as int,
                        step_size.raw as int,
                        steps as nat,
                    );
                }
                let c: i128 = clip(current.raw);
                let s: i128 = clip(step_size.raw);
                proof {
                    assert(-RAW_LIMIT * 0x1_0000_0000 <= s * steps <= RAW_LIMIT * 0x1_0000_0000)
                        by (nonlinear_arith)
                        requires
                            -RAW_LIMIT <= s <= RAW_LIMIT,
                            0 <= steps <= 0x1_0000_0000,
                    ;
                }
                let total: i128 = c + s * steps as i128;
                Fixed::from_raw(clip(total))
            },
            _ => {
                let mut c = current;
                let mut i: u32 = 0;
                while i < steps
                    invariant
                        i <= steps,
                        c.raw == self.next_n_spec(
                            current.raw as int,
                            target.raw as int,
                            step_size.raw as int,
                            i as nat,
                        ),
                    decreases steps - i,
                {
                    c = self.next(c, target, step_size);
                    i = i + 1;
                }
                c
            },
        }
    }
}

} // verus!
