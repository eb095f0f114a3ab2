//! How a fan is to be driven.

use vstd::prelude::*;

verus! {

/// The shape of the way from the lowest to the highest speed.
#[derive(Clone, Copy, Debug, PartialEq, Eq, Structural)]
pub enum SpeedCurve {
    Linear,
    Exponential,
    Logarithmic,
}

/// The settings of one fan.
#[derive(Clone, Copy, Debug, PartialEq, Eq, Structural)]
pub struct FanConfig {
    /// Up to this temperature the fan runs at its lowest speed.
    pub low_temp: u8,
    /// From this temperature on the fan runs at its highest speed.
    pub high_temp: u8,
    /// What happens in between.
    pub speed_curve: SpeedCurve,
    /// The fan runs at its highest speed whatever the temperature.
    pub always_full_speed: bool,
}

} // verus!
