//! A value that follows a target organically.
use vstd::prelude::*;
use vstd::std_specs::cmp::PartialOrdSpec;
use vstd::std_specs::ops::AddSpec;
use crate::math::quick::{clamped, partial_clamp};

verus! {

/// The state of a second order system: its last input, its output and the
/// velocity of its output.
#[derive(Debug, Clone, Copy)]
pub struct SecondOrder<T> {
    pub input_previous: T,
    pub output: T,
    pub output_velocity: T,
}

/// A value that follows its `target` through a second order system.
#[derive(Debug, Clone, Copy)]
pub struct Organic<T> {
    pub system: SecondOrder<T>,
    pub target: T,
}

impl<T: Default + Copy + PartialOrd + core::ops::Add<T, Output = T>> Organic<T> {
    /// The current output of the system.
    pub fn get(&self) -> (res: T)
        ensures
            res == self.system.output,
    {
        self.system.output
    }

    /// Sets the target that the system follows.
    pub fn set(&mut self, t: T)
        ensures
            final(self).target == t,
            final(self).system == old(self).system,
    {
        self.target = t;
    }

    /// Moves the target by `delta`, clamped between `lower` and `upper`.
    pub fn add_clamped(&mut self, delta: T, lower: T, upper: T)
        requires
            old(self).target.add_req(delta),
        ensures
            final(self).system == old(self).system,
            final(self).target == lower || final(self).target == upper || (T::obeys_add_spec()
                ==> final(self).target == old(self).target.add_spec(delta)),
            T::obeys_add_spec() && T::obeys_partial_cmp_spec() ==> final(self).target == clamped(
                old(self).target.add_spec(delta),
                lower,
                upper,
            ),
    {
        self.target = partial_clamp(self.target + delta, lower, upper);
    }

    /// Forces the system to `t`, by setting the target AND the current
    /// position to `t`, at rest.
    pub fn set_force(&mut self, t: T)
        ensures
            final(self).target == t,
            final(self).system.input_previous == t,
            final(self).system.output == t,
            call_ensures(T::default, (), final(self).system.output_velocity),
    {
        self.target = t;
        self.system.input_previous = t;
        self.system.output = t;
        self.system.output_velocity = T::default();
    }
}

} // verus!
