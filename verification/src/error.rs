//! What can go wrong in a way that the library decides on.

use crate::text::ParseError;
use vstd::prelude::*;

verus! {

#[derive(Clone, Copy, Debug, PartialEq, Eq, Structural)]
pub enum Error {
    /// The process does not run as root.
    NotRoot,
    /// The process that the pid file names is still there.
    AlreadyRunning,
    /// The pid file is there and cannot be read.
    PidRead,
    /// There is no fan.
    NoFan,
    /// There is no processor temperature sensor that can be read.
    NoCpu,
    /// A sensor's file does not hold a number.
    TempParse(ParseError),
    /// The file with a fan's lowest speed does not hold a number.
    MinSpeedParse(ParseError),
    /// The file with a fan's highest speed does not hold a number.
    MaxSpeedParse(ParseError),
}

} // verus!
