use vstd::prelude::*;

verus! {

/// A per-sample ramp of a parameter value towards a target.
///
/// `set_target` schedules a ramp that reaches `target` after `t` ticks,
/// `set_target_recip` does the same given `1 / t`, `set_val_instantly` jumps
/// to a value with no ramp, `tick` advances by `t` samples at once, `tick1`
/// by one sample, and `get_current` reads the value without changing it.
pub trait Smoother {
    type Value;

    fn set_target(&mut self, target: Self::Value, t: Self::Value);

    fn set_target_recip(&mut self, target: Self::Value, t_recip: Self::Value);

    fn set_val_instantly(&mut self, target: Self::Value);

    fn tick(&mut self, t: Self::Value);

    fn tick1(&mut self);

    fn get_current(&self) -> Self::Value;
}

} // verus!
