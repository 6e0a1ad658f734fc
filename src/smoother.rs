//! A smoother: the per-parameter state that turns target changes into a trajectory of values,
//! one per sample or one block at a time.

use vstd::prelude::*;

use crate::curve::{lemma_count_only_step_size, SmoothingStyle};
use crate::fixed::Fixed;
use crate::sample::Smoothable;

verus! {

/// The state of a smoother as its contracts see it.
pub struct SmootherView<T> {
    pub style: SmoothingStyle,
    /// Steps left until the target is reached.
    pub steps_left: int,
    /// Increment or factor per step, raw.
    pub step_size: int,
    /// The last produced engine value, raw.
    pub current: int,
    pub target: T,
}

impl<T: Smoothable> SmootherView<T> {
    /// The target as a raw engine value.
    pub open spec fn target_s(self) -> int {
        self.target.to_s_spec().raw as int
    }

    /// The countdown is never negative, and at its end the current value is the target.
    pub open spec fn inv(self) -> bool {
        &&& self.steps_left >= 0
        &&& self.steps_left == 0 ==> self.current == self.target_s()
    }

    /// The engine value that the next `next` call produces: the target once the countdown is at
    /// its last step or over, else one step of the curve.
    pub open spec fn next_value(self) -> int {
        if self.steps_left <= 1 {
            self.target_s()
        } else {
            self.style.next_spec(self.current, self.target_s(), self.step_size)
        }
    }

    /// The value that the next `next` call returns.
    pub open spec fn next_output(self) -> T {
        if self.steps_left <= 1 {
            self.target
        } else {
            T::from_s_spec(Fixed { raw: self.next_value() as i128 })
        }
    }

    /// The state after one `next` call.
    pub open spec fn after_next(self) -> SmootherView<T> {
        if self.steps_left <= 0 {
            self
        } else {
            SmootherView {
                style: self.style,
                steps_left: self.steps_left - 1,
                step_size: self.step_size,
                current: self.next_value(),
                target: self.target,
            }
        }
    }

    /// The state after `k` calls of `next`.
    pub open spec fn after_nexts(self, k: nat) -> SmootherView<T>
        decreases k,
    {
        if k == 0 {
            self
        } else {
            self.after_nexts((k - 1) as nat).after_next()
        }
    }

    /// The value returned by call number `i` (from zero) of a run of `next` calls.
    pub open spec fn output_at(self, i: nat) -> T {
        self.after_nexts(i).next_output()
    }

    /// The engine value produced by call number `i` (from zero) of a run of `next` calls.
    pub open spec fn value_at(self, i: nat) -> int {
        self.after_nexts(i).next_value()
    }

    /// The state after skipping `k` steps at once.
    pub open spec fn after_skip(self, k: int) -> SmootherView<T> {
        if self.steps_left <= 0 {
            self
        } else if self.steps_left <= k {
            SmootherView {
                style: self.style,
                steps_left: 0,
                step_size: self.step_size,
                current: self.target_s(),
                target: self.target,
            }
        } else {
            SmootherView {
                style: self.style,
                steps_left: self.steps_left - k,
                step_size: self.step_size,
                current: self.style.next_n_spec(
                    self.current,
                    self.target_s(),
                    self.step_size,
                    k as nat,
                ),
                target: self.target,
            }
        }
    }

    /// The value returned when skipping `k` steps at once.
    pub open spec fn skip_output(self, k: int) -> T {
        if self.steps_left <= k {
            self.target
        } else {
            T::from_s_spec(Fixed { raw: self.after_skip(k).current as i128 })
        }
    }
}

/// One `next` call keeps the invariant.
pub proof fn lemma_after_next_inv<T: Smoothable>(v: SmootherView<T>)
    requires
        v.inv(),
    ensures
        v.after_next().inv(),
{
}

/// Any run of `next` calls keeps the invariant.
pub proof fn lemma_after_nexts_inv<T: Smoothable>(v: SmootherView<T>, k: nat)
    requires
        v.inv(),
    ensures
        v.after_nexts(k).inv(),
    decreases k,
{
    if k > 0 {
        lemma_after_nexts_inv(v, (k - 1) as nat);
        lemma_after_next_inv(v.after_nexts((k - 1) as nat));
    }
}

/// An endless stream of smoothed values: each item is one `next` call on the smoother it
/// borrows, so consuming it advances that smoother.
pub struct SmootherIter<'a, T: Smoothable> {
    pub smoother: &'a mut Smoother<T>,
}

impl<'a, T: Smoothable> SmootherIter<'a, T> {
    /// The state of the borrowed smoother.
    pub closed spec fn smoother_view(&self) -> SmootherView<T> {
        (*self.smoother)@
    }

    pub closed spec fn wf(&self) -> bool {
        (*self.smoother).wf()
    }

    /// The next value: always present, and the result of one `next` call.
    pub fn next(&mut self) -> (r: Option<T>)
        requires
            old(self).wf(),
        ensures
            final(self).wf(),
            final(self).smoother_view() == old(self).smoother_view().after_next(),
            r == Some(old(self).smoother_view().next_output()),
            *final(final(self).smoother) == *final(old(self).smoother),
    {
        Some(self.smoother.next())
    }
}

/// The value call `i` of `next` returns is its engine value read back as `T`.
pub proof fn lemma_output_is_read_back<T: Smoothable>(v: SmootherView<T>, i: nat)
    ensures
        v.output_at(i) == T::from_s_spec(Fixed { raw: v.value_at(i) as i128 }),
{
    let w = v.after_nexts(i);
    if w.steps_left <= 1 {
        let x = w.target.to_s_spec();
        assert(Fixed { raw: (x.raw as int) as i128 } == x);
        w.target.lemma_round_trip();
    }
}

/// A smoother, providing a smoothed value for each sample.
///
/// Its methods take `&mut self`: a smoother belongs to one context at a time, normally the audio
/// thread. Producers on other threads hand it new targets rather than calling it directly.
#[derive(Debug)]
pub struct Smoother<T: Smoothable> {
    style: SmoothingStyle,
    /// Signed so that skipping past the end cannot wrap around.
    steps_left: i32,
    /// Increment per step for `Linear`, factor per step for the multiplicative curves.
    step_size: Fixed,
    /// The value for the current sample, always in the engine's representation.
    current: Fixed,
    /// The value being smoothed toward.
    target: T,
    /// Step count of the last step size computed for a style whose step size depends on the
    /// count alone (zero for none), so that retargeting with the same count skips the search.
    reused_steps: u32,
    /// That step size.
    reused_step_size: Fixed,
}

impl<T: Smoothable> View for Smoother<T> {
    type V = SmootherView<T>;

    closed spec fn view(&self) -> SmootherView<T> {
        SmootherView {
            style: self.style,
            steps_left: self.steps_left as int,
            step_size: self.step_size.raw as int,
            current: self.current.raw as int,
            target: self.target,
        }
    }
}

impl<T: Smoothable> Clone for Smoother<T> {
    fn clone(&self) -> (r: Smoother<T>)
        ensures
            r@ == self@,
            self.wf() ==> r.wf(),
    {
        Smoother {
            style: self.style.clone(),
            steps_left: self.steps_left,
            step_size: self.step_size,
            current: self.current,
            target: self.target,
            reused_steps: self.reused_steps,
            reused_step_size: self.reused_step_size,
        }
    }
}

impl<T: Smoothable> Default for Smoother<T> {
    /// A smoother without smoothing, at rest at zero; the same as `Smoother::none()`.
    fn default() -> (r: Smoother<T>)
        ensures
            r@.style == SmoothingStyle::NoSmoothing,
            r@.steps_left == 0,
            r@.step_size == 0,
            r@.current == r@.target_s(),
            r@.target == T::from_s_spec(Fixed { raw: 0 }),
    {
        Smoother::new(SmoothingStyle::NoSmoothing)
    }
}

impl<T: Smoothable> Smoother<T> {
    /// The countdown is never negative, and at its end the current value is the target.
    pub open spec fn wf(&self) -> bool {
        self@.inv() && self.reuse_ok()
    }

    /// A kept step size is the style's step size for the kept count.
    pub closed spec fn reuse_ok(&self) -> bool {
        self.reused_steps >= 1 ==> self.style.step_size_is_count_only()
            && self.reused_step_size.raw == self.style.step_size_spec(0, 0, self.reused_steps as int)
    }

    /// A smoother with the given style, at rest at zero.
    pub fn new(style: SmoothingStyle) -> (r: Smoother<T>)
        ensures
            r.wf(),
            r@.style == style,
            r@.steps_left == 0,
            r@.step_size == 0,
            r@.current == r@.target_s(),
            r@.target == T::from_s_spec(Fixed { raw: 0 }),
    {
        let target = T::from_s(Fixed::zero());
        Smoother {
            style,
            steps_left: 0,
            step_size: Fixed::zero(),
            current: target.to_s(),
            target,
            reused_steps: 0,
            reused_step_size: Fixed::zero(),
        }
    }

    /// A smoother that applies no smoothing at all.
    pub fn none() -> (r: Smoother<T>)
        ensures
            r.wf(),
            r@.style == SmoothingStyle::NoSmoothing,
            r@.steps_left == 0,
            r@.step_size == 0,
            r@.current == r@.target_s(),
            r@.target == T::from_s_spec(Fixed { raw: 0 }),
    {
        Smoother::new(SmoothingStyle::NoSmoothing)
    }

    /// The style in use.
    pub fn style(&self) -> (r: &SmoothingStyle)
        ensures
            *r == self@.style,
    {
        &self.style
    }

    /// Replaces the style, for instance for a ramp of a given length. The countdown and step size
    /// in flight are kept; the new style applies to the steps taken from now on.
    pub fn set_style(&mut self, style: SmoothingStyle)
        requires
            old(self).wf(),
        ensures
            final(self).wf(),
            final(self)@ == (SmootherView { style, ..old(self)@ }),
    {
        self.style = style;
        self.reused_steps = 0;
    }

    /// An endless stream of this smoother's values, one `next` call per item.
    pub fn iter(&mut self) -> (r: SmootherIter<'_, T>)
        requires
            old(self).wf(),
        ensures
            r.wf(),
            r.smoother_view() == old(self)@,
            final(self)@ == (*final(r.smoother))@,
    {
        SmootherIter { smoother: self }
    }

    /// Sets the oversampling amount of an oversampling-aware style; it applies from the next
    /// `set_target` on. Other styles are left as they are.
    pub fn set_oversampling(&mut self, times: Fixed)
        requires
            old(self).wf(),
        ensures
            final(self).wf(),
            final(self)@ == (SmootherView {
                style: old(self)@.style.with_oversampling_spec(times),
                ..old(self)@
            }),
    {
        self.style = self.style.with_oversampling(times);
        self.reused_steps = 0;
    }

    /// The number of steps left until `next` stops yielding new values.
    pub fn steps_left(&self) -> (r: i32)
        ensures
            r == self@.steps_left,
    {
        self.steps_left
    }

    /// Whether `next` will yield a new value rather than the target.
    pub fn is_smoothing(&self) -> (r: bool)
        ensures
            r == (self@.steps_left > 0),
    {
        self.steps_left > 0
    }

    /// Resets the smoother to `value`: the next values are `value` itself.
    pub fn reset(&mut self, value: T)
        requires
            old(self).wf(),
        ensures
            final(self).wf(),
            final(self)@ == (SmootherView {
                style: old(self)@.style,
                steps_left: 0,
                step_size: old(self)@.step_size,
                current: value.to_s_spec().raw as int,
                target: value,
            }),
    {
        self.target = value;
        self.current = value.to_s();
        self.steps_left = 0;
    }

    /// Sets a new target: the style's number of steps at `sample_rate` is scheduled, with the
    /// step size that leads from the current value to the target in that many steps.
    ///
    /// Cost: constant for `Linear` and `NoSmoothing`. The multiplicative curves search their
    /// factor, about 60 to 95 runs of `n` multiplications for `n` steps; an `Exponential` factor
    /// depends on the step count alone and is kept, so retargeting with an unchanged count (the
    /// usual case at a fixed sample rate) costs nothing more.
    pub fn set_target(&mut self, sample_rate: Fixed, target: T)
        requires
            old(self).wf(),
        ensures
            final(self).wf(),
            final(self)@.style == old(self)@.style,
            final(self)@.target == target,
            final(self)@.current == old(self)@.current,
            final(self)@.steps_left == old(self)@.style.num_steps_spec(sample_rate.raw as int),
            final(self)@.step_size == old(self)@.style.step_size_spec(
                old(self)@.current,
                target.to_s_spec().raw as int,
                final(self)@.steps_left,
            ),
    {
        self.target = target;
        let n = self.style.num_steps(sample_rate);
        self.steps_left = n as i32;
        let target_s = target.to_s();
        if n == self.reused_steps {
            proof {
                lemma_count_only_step_size(&self.style, 0, 0, self.current.raw as int, target_s.raw as int, n as int);
            }
            self.step_size = self.reused_step_size;
        } else {
            let step_size = self.style.step_size(self.current, target_s, n);
            if self.style.has_count_only_step_size() {
                proof {
                    lemma_count_only_step_size(&self.style, 0, 0, self.current.raw as int, target_s.raw as int, n as int);
                }
                self.reused_steps = n;
                self.reused_step_size = step_size;
            }
            self.step_size = step_size;
        }
    }

    /// The next value; call once per sample. On the last scheduled step the value snaps to the
    /// target exactly.
    pub fn next(&mut self) -> (r: T)
        requires
            old(self).wf(),
        ensures
            final(self).wf(),
            final(self)@ == old(self)@.after_next(),
            r == old(self)@.next_output(),
    {
        if self.steps_left > 0 {
            if self.steps_left == 1 {
                self.current = self.target.to_s();
                self.steps_left = 0;
                self.target
            } else {
                let target_s = self.target.to_s();
                self.current = self.style.next(self.current, target_s, self.step_size);
                self.steps_left = self.steps_left - 1;
                T::from_s(self.current)
            }
        } else {
            self.target
        }
    }

    /// Skips `steps - 1` values and returns the one after them; `next_step(1)` is `next()`.
    pub fn next_step(&mut self, steps: u32) -> (r: T)
        requires
            old(self).wf(),
            steps >= 1,
        ensures
            final(self).wf(),
            final(self)@ == old(self)@.after_skip(steps as int),
            r == old(self)@.skip_output(steps as int),
    {
        if self.steps_left > 0 {
            if self.steps_left as i64 <= steps as i64 {
                self.current = self.target.to_s();
                self.steps_left = 0;
                self.target
            } else {
                let target_s = self.target.to_s();
                self.current = self.style.next_step(self.current, target_s, self.step_size, steps);
                self.steps_left = self.steps_left - steps as i32;
                T::from_s(self.current)
            }
        } else {
            self.target
        }
    }

    /// The value last produced, without advancing.
    pub fn previous_value(&self) -> (r: T)
        ensures
            r == T::from_s_spec(Fixed { raw: self@.current as i128 }),
            self.wf() && self@.steps_left == 0 ==> r == self@.target,
    {
        proof {
            self.target.lemma_round_trip();
        }
        T::from_s(self.current)
    }

    /// Fills `block[..len]` with the values of `len` calls of `next`, computing the curve only
    /// for the samples that still need it and writing the target to the rest.
    fn fill_block(&mut self, block: &mut [T], len: usize)
        requires
            old(self).wf(),
            len <= old(block)@.len(),
        ensures
            final(self).wf(),
            final(self)@ == old(self)@.after_nexts(len as nat),
            final(block)@.len() == old(block)@.len(),
            forall|i: int| 0 <= i < len ==> final(block)@[i] == old(self)@.output_at(i as nat),
            forall|i: int| len <= i < old(block)@.len() ==> final(block)@[i] == old(block)@[i],
    {
        let ghost v0 = self@;
        let read_back = |_i: usize, v: Fixed| -> (r: T)
            ensures
                r == T::from_s_spec(v),
            { T::from_s(v) };
        self.fill_block_mapped(block, len, read_back);
        proof {
            assert forall|i: int| 0 <= i < len implies block@[i] == v0.output_at(i as nat) by {
                lemma_output_is_read_back(v0, i as nat);
            }
        }
    }

    /// Fills `block_values[..block_len]` with the values of `block_len` calls of `next`; the rest
    /// of the slice is left as it was.
    pub fn next_block(&mut self, block_values: &mut [T], block_len: usize)
        requires
            old(self).wf(),
            block_len <= old(block_values)@.len(),
        ensures
            final(self).wf(),
            final(self)@ == old(self)@.after_nexts(block_len as nat),
            final(block_values)@.len() == old(block_values)@.len(),
            forall|i: int|
                0 <= i < block_len ==> final(block_values)@[i] == old(self)@.output_at(i as nat),
            forall|i: int|
                block_len <= i < old(block_values)@.len() ==> final(block_values)@[i] == old(
                    block_values,
                )@[i],
    {
        self.fill_block(block_values, block_len);
    }

    /// Fills the whole slice with the values of as many calls of `next`.
    pub fn next_block_exact(&mut self, block_values: &mut [T])
        requires
            old(self).wf(),
        ensures
            final(self).wf(),
            final(self)@ == old(self)@.after_nexts(old(block_values)@.len()),
            final(block_values)@.len() == old(block_values)@.len(),
            forall|i: int|
                0 <= i < old(block_values)@.len() ==> final(block_values)@[i] == old(
                    self,
                )@.output_at(i as nat),
    {
        let len = block_values.len();
        self.fill_block(block_values, len);
    }

    /// As `fill_block`, but each entry is `f(index, engine value)`, called for every index.
    fn fill_block_mapped<F: Fn(usize, Fixed) -> T>(&mut self, block: &mut [T], len: usize, f: F)
        requires
            old(self).wf(),
            len <= old(block)@.len(),
            forall|i: usize, v: Fixed| f.requires((i, v)),
        ensures
            final(self).wf(),
            final(self)@ == old(self)@.after_nexts(len as nat),
            final(block)@.len() == old(block)@.len(),
            forall|i: int|
                0 <= i < len ==> f.ensures(
                    (i as usize, Fixed { raw: old(self)@.value_at(i as nat) as i128 }),
                    final(block)@[i],
                ),
            forall|i: int| len <= i < old(block)@.len() ==> final(block)@[i] == old(block)@[i],
    {
        let ghost v0 = self@;
        let ghost b0 = block@;
        let target_s = self.target.to_s();
        let steps_left: usize = self.steps_left as usize;
        let num_smoothed: usize = if len < steps_left {
            len
        } else {
            steps_left
        };
        let snaps: bool = num_smoothed > 0 && num_smoothed == steps_left;
        let interpolated: usize = if snaps {
            num_smoothed - 1
        } else {
            num_smoothed
        };
        let step_size = self.step_size;
        let mut current = self.current;
        let mut i: usize = 0;
        while i < interpolated
            invariant
                i <= interpolated,
                interpolated <= num_smoothed <= len,
                num_smoothed <= steps_left,
                steps_left == v0.steps_left,
                interpolated < steps_left || (interpolated == 0 && steps_left == 0),
                len <= block@.len(),
                block@.len() == b0.len(),
                self@ == v0,
                target_s == v0.target.to_s_spec(),
                step_size.raw == v0.step_size,
                forall|i: usize, v: Fixed| f.requires((i, v)),
                v0.after_nexts(i as nat) == (SmootherView {
                    style: v0.style,
                    steps_left: v0.steps_left - i,
                    step_size: v0.step_size,
                    current: current.raw as int,
                    target: v0.target,
                }),
                forall|j: int|
                    0 <= j < i ==> f.ensures(
                        (j as usize, Fixed { raw: v0.value_at(j as nat) as i128 }),
                        block@[j],
                    ),
                forall|j: int| len <= j < b0.len() ==> block@[j] == b0[j],
            decreases interpolated - i,
        {
            current = self.style.next(current, target_s, step_size);
            block[i] = f(i, current);
            i = i + 1;
        }
        if snaps {
            current = target_s;
            block[i] = f(i, target_s);
            i = i + 1;
        }
        assert(v0.after_nexts(i as nat) == (SmootherView {
            style: v0.style,
            steps_left: v0.steps_left - i,
            step_size: v0.step_size,
            current: current.raw as int,
            target: v0.target,
        }));
        assert(i == num_smoothed);
        while i < len
            invariant
                num_smoothed <= i <= len,
                len <= block@.len(),
                block@.len() == b0.len(),
                self@ == v0,
                target_s == v0.target.to_s_spec(),
                forall|i: usize, v: Fixed| f.requires((i, v)),
                num_smoothed < len ==> num_smoothed == v0.steps_left,
                v0.after_nexts(i as nat) == (SmootherView {
                    style: v0.style,
                    steps_left: v0.steps_left - num_smoothed,
                    step_size: v0.step_size,
                    current: current.raw as int,
                    target: v0.target,
                }),
                forall|j: int|
                    0 <= j < i ==> f.ensures(
                        (j as usize, Fixed { raw: v0.value_at(j as nat) as i128 }),
                        block@[j],
                    ),
                forall|j: int| len <= j < b0.len() ==> block@[j] == b0[j],
            decreases len - i,
        {
            block[i] = f(i, target_s);
            i = i + 1;
        }
        proof {
            lemma_after_nexts_inv(v0, len as nat);
        }
        self.current = current;
        self.steps_left = self.steps_left - num_smoothed as i32;
    }

    /// As `next_block`, with `f` applied to each index and engine value; `f` is called for every
    /// index, also once smoothing is over. Useful for modulation on top of a smoothed value.
    pub fn next_block_mapped<F: Fn(usize, Fixed) -> T>(
        &mut self,
        block_values: &mut [T],
        block_len: usize,
        f: F,
    )
        requires
            old(self).wf(),
            block_len <= old(block_values)@.len(),
            forall|i: usize, v: Fixed| f.requires((i, v)),
        ensures
            final(self).wf(),
            final(self)@ == old(self)@.after_nexts(block_len as nat),
            final(block_values)@.len() == old(block_values)@.len(),
            forall|i: int|
                0 <= i < block_len ==> f.ensures(
                    (i as usize, Fixed { raw: old(self)@.value_at(i as nat) as i128 }),
                    final(block_values)@[i],
                ),
            forall|i: int|
                block_len <= i < old(block_values)@.len() ==> final(block_values)@[i] == old(
                    block_values,
                )@[i],
    {
        self.fill_block_mapped(block_values, block_len, f);
    }

    /// As `next_block_exact`, with `f` applied to each index and engine value.
    pub fn next_block_exact_mapped<F: Fn(usize, Fixed) -> T>(
        &mut self,
        block_values: &mut [T],
        f: F,
    )
        requires
            old(self).wf(),
            forall|i: usize, v: Fixed| f.requires((i, v)),
        ensures
            final(self).wf(),
            final(self)@ == old(self)@.after_nexts(old(block_values)@.len()),
            final(block_values)@.len() == old(block_values)@.len(),
            forall|i: int|
                0 <= i < old(block_values)@.len() ==> f.ensures(
                    (i as usize, Fixed { raw: old(self)@.value_at(i as nat) as i128 }),
                    final(block_values)@[i],
                ),
    {
        let len = block_values.len();
        self.fill_block_mapped(block_values, len, f);
    }
}

} // verus!
