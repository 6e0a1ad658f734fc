//! Facts about the trajectory a smoother walks: where a run of `next` calls leads, that skipping
//! agrees with stepping, that an idle smoother stays put, and when the target is reached.

use vstd::prelude::*;
use vstd::arithmetic::div_mod::lemma_fundamental_div_mod;

use crate::curve::{lemma_linear_closed_form, linear_step, SmoothingStyle, MAX_STEPS};
use crate::fixed::{div_trunc, saturate, Fixed, RAW_LIMIT};
use crate::sample::Smoothable;
use crate::smoother::SmootherView;

verus! {

/// Every style schedules at least one and at most `MAX_STEPS` steps.
pub proof fn lemma_num_steps_bounds(style: &SmoothingStyle, sample_rate: int)
    ensures
        1 <= style.num_steps_spec(sample_rate) <= MAX_STEPS,
    decreases style,
{
    match style {
        SmoothingStyle::OversamplingAware(times, inner) => {
            lemma_num_steps_bounds(inner, crate::fixed::mul_raw(sample_rate, times.raw as int));
        },
        _ => {},
    }
}

/// Runs of `next` calls compose.
pub proof fn lemma_after_nexts_add<T: Smoothable>(v: SmootherView<T>, a: nat, b: nat)
    ensures
        v.after_nexts(a).after_nexts(b) == v.after_nexts(a + b),
    decreases b,
{
    if b > 0 {
        lemma_after_nexts_add(v, a, (b - 1) as nat);
        assert((a + b - 1) as nat == a + (b - 1) as nat);
    }
}

/// Before the countdown ends, `k` calls of `next` take `k` curve steps and count down by `k`.
pub proof fn lemma_progress<T: Smoothable>(v: SmootherView<T>, k: nat)
    requires
        k < v.steps_left,
    ensures
        v.after_nexts(k) == (SmootherView {
            steps_left: v.steps_left - k,
            current: v.style.next_n_spec(v.current, v.target_s(), v.step_size, k),
            ..v
        }),
    decreases k,
{
    if k > 0 {
        lemma_progress(v, (k - 1) as nat);
    }
}

/// From a countdown of `n >= 1`, the `n`-th call of `next` returns the target and leaves the
/// smoother at rest on it, so that `previous_value` reads the target back exactly.
pub proof fn lemma_reaches_target<T: Smoothable>(v: SmootherView<T>)
    requires
        v.steps_left >= 1,
    ensures
        v.output_at((v.steps_left - 1) as nat) == v.target,
        v.value_at((v.steps_left - 1) as nat) == v.target_s(),
        v.after_nexts(v.steps_left as nat) == (SmootherView {
            steps_left: 0,
            current: v.target_s(),
            ..v
        }),
        forall|i: nat| i < v.steps_left ==> #[trigger] v.after_nexts(i).steps_left > 0,
        T::from_s_spec(Fixed { raw: v.after_nexts(v.steps_left as nat).current as i128 })
            == v.target,
{
    let n = (v.steps_left - 1) as nat;
    lemma_progress(v, n);
    v.target.lemma_round_trip();
    assert forall|i: nat| i < v.steps_left implies #[trigger] v.after_nexts(i).steps_left > 0 by {
        lemma_progress(v, i);
    }
}

/// Once the countdown is over, `next` returns the target and changes nothing, however often it
/// is called.
pub proof fn lemma_idle_is_fixed<T: Smoothable>(v: SmootherView<T>, k: nat)
    requires
        v.steps_left <= 0,
    ensures
        v.after_nexts(k) == v,
        v.output_at(k) == v.target,
        v.value_at(k) == v.target_s(),
    decreases k,
{
    if k > 0 {
        lemma_idle_is_fixed(v, (k - 1) as nat);
    }
}

/// At or past the end of the countdown, further calls change nothing.
proof fn lemma_done_is_fixed<T: Smoothable>(v: SmootherView<T>, k: nat)
    requires
        v.steps_left >= 0,
        k >= v.steps_left,
    ensures
        v.after_nexts(k) == v.after_nexts(v.steps_left as nat),
        v.after_nexts(k).steps_left == 0,
{
    let n = v.steps_left as nat;
    if n == 0 {
        lemma_idle_is_fixed(v, k);
    } else {
        lemma_reaches_target(v);
        let w = v.after_nexts(n);
        lemma_idle_is_fixed(w, (k - n) as nat);
        lemma_after_nexts_add(v, n, (k - n) as nat);
    }
}

/// Skipping `k` steps with `next_step(k)` lands in the same state and returns the same value as
/// `k` calls of `next`; so anything done afterwards agrees as well.
pub proof fn lemma_skip_matches_steps<T: Smoothable>(v: SmootherView<T>, k: nat, m: nat)
    requires
        k >= 1,
        v.steps_left >= 0,
    ensures
        v.after_skip(k as int) == v.after_nexts(k),
        v.skip_output(k as int) == v.output_at((k - 1) as nat),
        v.after_skip(k as int).after_nexts(m) == v.after_nexts(k + m),
        v.after_skip(k as int).output_at(m) == v.output_at(k + m),
{
    let j = (k - 1) as nat;
    if v.steps_left == 0 {
        lemma_idle_is_fixed(v, k);
        lemma_idle_is_fixed(v, j);
    } else if v.steps_left <= k {
        lemma_reaches_target(v);
        lemma_done_is_fixed(v, k);
        if j >= v.steps_left {
            lemma_done_is_fixed(v, j);
            lemma_idle_is_fixed(v.after_nexts(j), 0);
        }
    } else {
        lemma_progress(v, k);
        lemma_progress(v, j);
    }
    lemma_after_nexts_add(v, k, m);
}

/// A linear ramp between distinct values is still short of the target one call before the last:
/// it reaches the target neither early nor late.
pub proof fn lemma_linear_not_early<T: Smoothable>(v: SmootherView<T>)
    requires
        v.style is Linear,
        v.steps_left >= 2,
        v.step_size == linear_step(v.current, v.target_s(), v.steps_left),
        v.current != v.target_s(),
        -RAW_LIMIT <= v.current <= RAW_LIMIT,
        -RAW_LIMIT <= v.target_s() <= RAW_LIMIT,
    ensures
        v.value_at((v.steps_left - 2) as nat) != v.target_s(),
        v.output_at((v.steps_left - 1) as nat) == v.target,
{
    lemma_reaches_target(v);
    let n = v.steps_left;
    let c = v.current;
    let t = v.target_s();
    let s = v.step_size;
    let k = (n - 2) as nat;
    lemma_progress(v, k);
    assert(v.value_at(k) == v.style.next_n_spec(c, t, s, (k + 1) as nat));
    lemma_linear_closed_form(&v.style, c, t, s, (k + 1) as nat);
    let d = t - c;
    let m = n - 1;
    if d > 0 {
        let q = d / n;
        lemma_fundamental_div_mod(d, n);
        assert(0 <= q) by (nonlinear_arith)
            requires
                d > 0,
                n >= 2,
                q == d / n,
        ;
        assert(q * n <= d) by (nonlinear_arith)
            requires
                d == n * q + d % n,
                0 <= d % n,
        ;
        assert(q * 2 <= q * n) by (nonlinear_arith)
            requires
                q >= 0,
                n >= 2,
        ;
        assert(div_trunc(d, n) == q);
        assert(s == q);
        assert(q * m == q * n - q) by (nonlinear_arith)
            requires
                m == n - 1,
        ;
        assert(s * (k + 1) == q * m) by (nonlinear_arith)
            requires
                s == q,
                k + 1 == m,
        ;
        if q == 0 {
            assert(q * m == 0) by (nonlinear_arith)
                requires
                    q == 0,
            ;
        }
        assert(q * m >= 0) by (nonlinear_arith)
            requires
                q >= 0,
                m >= 1,
        ;
        assert(c + s * (k + 1) < t || s * (k + 1) == 0);
        assert(v.value_at(k) == saturate(c + s * (k + 1)));
    } else {
        let e = -d;
        let q = e / n;
        lemma_fundamental_div_mod(e, n);
        assert(0 <= q) by (nonlinear_arith)
            requires
                e > 0,
                n >= 2,
                q == e / n,
        ;
        assert(q * n <= e) by (nonlinear_arith)
            requires
                e == n * q + e % n,
                0 <= e % n,
        ;
        assert(q * 2 <= q * n) by (nonlinear_arith)
            requires
                q >= 0,
                n >= 2,
        ;
        assert(div_trunc(d, n) == -q);
        assert(s == -q);
        assert((-q) * m == -(q * n - q)) by (nonlinear_arith)
            requires
                m == n - 1,
        ;
        assert(s * (k + 1) == (-q) * m) by (nonlinear_arith)
            requires
                s == -q,
                k + 1 == m,
        ;
        if q == 0 {
            assert((-q) * m == 0) by (nonlinear_arith)
                requires
                    q == 0,
            ;
        }
        assert(q * n - q >= 0) by (nonlinear_arith)
            requires
                q >= 0,
                n >= 2,
        ;
        assert(c + s * (k + 1) > t || s * (k + 1) == 0);
        assert(v.value_at(k) == saturate(c + s * (k + 1)));
    }
}

/// After `set_target` schedules `n = num_steps` steps, the `n`-th call of `next` returns the
/// target, every call before it still finds the smoother smoothing, and a linear ramp between
/// distinct engine values has not arrived one call earlier.
pub proof fn lemma_schedule_converges<T: Smoothable>(v: SmootherView<T>, sample_rate: int)
    requires
        v.steps_left == v.style.num_steps_spec(sample_rate),
        v.step_size == v.style.step_size_spec(v.current, v.target_s(), v.steps_left),
    ensures
        v.steps_left >= 1,
        v.output_at((v.steps_left - 1) as nat) == v.target,
        v.after_nexts(v.steps_left as nat).steps_left == 0,
        forall|i: nat| i < v.steps_left ==> #[trigger] v.after_nexts(i).steps_left > 0,
        v.style is Linear && v.steps_left >= 2 && v.current != v.target_s() && -RAW_LIMIT
            <= v.current <= RAW_LIMIT && -RAW_LIMIT <= v.target_s() <= RAW_LIMIT ==> v.value_at((v.steps_left - 2) as nat) != v.target_s(),
{
    lemma_num_steps_bounds(&v.style, sample_rate);
    lemma_reaches_target(v);
    if v.style is Linear && v.steps_left >= 2 && v.current != v.target_s() && -RAW_LIMIT
        <= v.current <= RAW_LIMIT && -RAW_LIMIT <= v.target_s() <= RAW_LIMIT {
        lemma_linear_not_early(v);
    }
}

} // verus!
