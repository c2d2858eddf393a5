//! A single leaky integrate-and-fire neuron.
use vstd::prelude::*;
use crate::fixed::{clamp, saturate, scale_wide, scaled, ONE};

verus! {

/// A leaky integrate-and-fire unit. All four values are fixed-point numbers
/// (see [`crate::fixed`]).
///
/// - `u`: the membrane potential, the only state carried between steps;
/// - `beta`: the decay factor applied to the potential each step, meant to lie
///   in `(0, 1]`;
/// - `u_threshold`: the potential at or above which the neuron fires;
/// - `u_min`: the floor that a firing neuron's new potential is clipped to.
#[derive(Clone, Copy, Debug, PartialEq, Eq, Structural)]
pub struct LeakyIntegrateAndFireNeuron {
    pub u: i64,
    pub beta: i64,
    pub u_threshold: i64,
    pub u_min: i64,
}

/// The potential `beta * u + drive` before any firing rule, clamped.
pub open spec fn charged(n: LeakyIntegrateAndFireNeuron, drive: i64) -> i64 {
    clamp(scaled(n.beta as int, n.u as int) + drive)
}

/// Whether the neuron fires on this step: the comparison uses the potential
/// held at the start of the step.
pub open spec fn fires(n: LeakyIntegrateAndFireNeuron) -> bool {
    n.u >= n.u_threshold
}

/// The potential after one step with input `drive`.
pub open spec fn next_potential(n: LeakyIntegrateAndFireNeuron, drive: i64) -> i64 {
    if fires(n) {
        let c = clamp(scaled(n.beta as int, n.u as int) + drive - n.u_threshold);
        if c < n.u_min {
            n.u_min
        } else {
            c
        }
    } else {
        charged(n, drive)
    }
}

/// The spike emitted on one step: `1.0` when the neuron fires, else `0`.
pub open spec fn spike_of(n: LeakyIntegrateAndFireNeuron) -> i64 {
    if fires(n) {
        ONE
    } else {
        0
    }
}

impl LeakyIntegrateAndFireNeuron {
    /// A neuron with potential `u`, decay `beta`, threshold `u_threshold` and
    /// reset floor `u_min`.
    pub fn new(u: i64, beta: i64, u_threshold: i64, u_min: i64) -> (r: Self)
        ensures
            r == (LeakyIntegrateAndFireNeuron { u, beta, u_threshold, u_min }),
    {
        LeakyIntegrateAndFireNeuron { u, beta, u_threshold, u_min }
    }

    /// One state transition with input `spike_in`; returns the next potential
    /// and the spike emitted. The neuron itself is left as it is.
    ///
    /// A neuron whose potential has reached its threshold emits `1.0` and
    /// loses one threshold's worth of charge, but not below `u_min`; any
    /// other neuron emits `0` and keeps the decayed potential plus its input.
    pub fn step(&self, spike_in: i64) -> (r: (i64, i64))
        ensures
            r.0 == next_potential(*self, spike_in),
            r.1 == spike_of(*self),
            self.u >= self.u_threshold ==> r.1 == ONE && r.0 == (if clamp(
                scaled(self.beta as int, self.u as int) + spike_in - self.u_threshold,
            ) < self.u_min {
                self.u_min
            } else {
                clamp(scaled(self.beta as int, self.u as int) + spike_in - self.u_threshold)
            }),
            self.u < self.u_threshold ==> r.1 == 0 && r.0 == clamp(
                scaled(self.beta as int, self.u as int) + spike_in,
            ),
    {
        let u_next = scale_wide(self.beta, self.u) + spike_in as i128;
        if self.u >= self.u_threshold {
            let reduced = saturate(u_next - self.u_threshold as i128);
            let clipped = if reduced < self.u_min {
                self.u_min
            } else {
                reduced
            };
            (clipped, ONE)
        } else {
            (saturate(u_next), 0)
        }
    }
}

} // verus!
