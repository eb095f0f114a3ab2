//! One fan: its limits, the speed that a temperature asks for, and what is written
//! to its control files.

use crate::binary32::{
    encoded_share, law_encoded_share_is_close, law_encoded_share_monotone,
    law_encoded_share_within_span, law_share_common_factor, law_share_is_close,
    law_share_is_correctly_rounded, law_share_monotone, law_share_within_span, share, share_of,
    share_of_encoded, ONE,
};
use crate::config::{FanConfig, SpeedCurve};
use crate::error::Error;
use crate::text::{
    append_decimal, decimal, digit, is_blank, law_decimal_round_trip, parse_trimmed,
    parse_trimmed_end, parsed, trimmed, trimmed_end, ParseError,
};
use vstd::arithmetic::power2::pow2;
use vstd::math::abs;
use vstd::prelude::*;

verus! {

/// A fan that can be set to a speed.
#[derive(Clone, Copy, Debug, PartialEq, Eq, Structural)]
pub struct FanController {
    /// How the fan is to be driven.
    pub config: FanConfig,
    /// The lowest speed that the fan takes.
    pub min_speed: u32,
    /// The highest speed that the fan takes.
    pub max_speed: u32,
}

/// The speed that a temperature asks for.
#[derive(Clone, Copy, Debug, PartialEq, Eq, Structural)]
pub enum TargetSpeed {
    /// The speed itself.
    Speed(u32),
    /// The speed that `FanController::logarithmic_speed` gives for the logarithm of
    /// `steps` to the base `range`.
    Logarithm { steps: u32, range: u32 },
}

/// What setting a fan's speed writes.
pub struct SpeedCommand {
    /// What goes to the terminal.
    pub message: String,
    /// What goes to the fan's output file.
    pub output: String,
}

pub open spec fn cube(n: nat) -> nat {
    n * n * n
}

/// The speed `lowest + part`, if a `u32` holds it.
pub open spec fn raised(lowest: u32, part: u32) -> Option<u32> {
    if lowest + part <= u32::MAX {
        Some((lowest + part) as u32)
    } else {
        None
    }
}

/// The first of the given readings of a fan's limits that is no number decides.
pub open spec fn limits(min_text: Seq<char>, max_text: Seq<char>) -> Result<(u32, u32), Error> {
    match parsed(trimmed(min_text)) {
        Err(e) => Err(Error::MinSpeedParse(e)),
        Ok(min) => match parsed(trimmed_end(max_text)) {
            Err(e) => Err(Error::MaxSpeedParse(e)),
            Ok(max) => Ok((min, max)),
        },
    }
}

impl FanController {
    /// The temperature lies strictly between the two bounds, so that the curve
    /// decides.
    pub open spec fn on_curve(self, temp: u8) -> bool {
        !self.config.always_full_speed && self.config.low_temp < temp < self.config.high_temp
    }

    /// The difference of the limits.
    pub open spec fn span(self) -> nat {
        (self.max_speed - self.min_speed) as nat
    }

    /// The speed that a temperature asks for.
    pub open spec fn target(self, temp: u8) -> TargetSpeed {
        let steps = (temp - self.config.low_temp) as nat;
        let range = (self.config.high_temp - self.config.low_temp) as nat;
        if self.config.always_full_speed {
            TargetSpeed::Speed(self.max_speed)
        } else if temp <= self.config.low_temp {
            TargetSpeed::Speed(self.min_speed)
        } else if temp >= self.config.high_temp {
            TargetSpeed::Speed(self.max_speed)
        } else {
            match self.config.speed_curve {
                SpeedCurve::Linear => TargetSpeed::Speed(
                    (self.min_speed + share(steps, range, self.span())) as u32,
                ),
                SpeedCurve::Exponential => TargetSpeed::Speed(
                    (self.min_speed + share(cube(steps), cube(range), self.span())) as u32,
                ),
                SpeedCurve::Logarithmic => TargetSpeed::Logarithm {
                    steps: steps as u32,
                    range: range as u32,
                },
            }
        }
    }

    /// The speed that a temperature asks for, once the logarithm is known: `ratio`
    /// is its encoding. The other curves do not look at it.
    pub open spec fn speed(self, temp: u8, ratio: u32) -> Option<u32> {
        match self.target(temp) {
            TargetSpeed::Speed(speed) => Some(speed),
            TargetSpeed::Logarithm { .. } => raised(
                self.min_speed,
                encoded_share(ratio, self.span() as u32),
            ),
        }
    }

    /// The speed within the limits that stands for `speed`.
    pub open spec fn clamped(self, speed: u32) -> u32 {
        if speed < self.min_speed {
            self.min_speed
        } else if speed > self.max_speed {
            self.max_speed
        } else {
            speed
        }
    }

    /// A fan whose limits are given by the contents of two files.
    pub fn new(min_text: &str, max_text: &str, config: FanConfig) -> (r: Result<Self, Error>)
        ensures
            match limits(min_text@, max_text@) {
                Ok((min, max)) => r == Ok::<Self, Error>(
                    FanController { config, min_speed: min, max_speed: max },
                ),
                Err(e) => r == Err::<Self, Error>(e),
            },
            match (parsed(trimmed(min_text@)), parsed(trimmed_end(max_text@))) {
                (Ok(min), Ok(max)) => r matches Ok(fan) && fan.min_speed == min && fan.max_speed
                    == max && fan.config == config,
                (Err(e), _) => r == Err::<Self, Error>(Error::MinSpeedParse(e)),
                (Ok(_), Err(e)) => r == Err::<Self, Error>(Error::MaxSpeedParse(e)),
            },
    {
        let min_speed: u32 = match parse_min_speed(min_text) {
            Ok(n) => n,
            Err(e) => return Err(e),
        };
        let max_speed: u32 = match parse_max_speed(max_text) {
            Ok(n) => n,
            Err(e) => return Err(e),
        };
        Ok(FanController { config, min_speed, max_speed })
    }

    /// What switches manual control on or off.
    pub fn set_manual(&self, enabled: bool) -> (text: &'static str)
        ensures
            text@ == seq![digit(if enabled { 1 } else { 0 })],
            text@ == seq![if enabled { '1' } else { '0' }],
    {
        proof {
            reveal_strlit("0");
            reveal_strlit("1");
        }
        if enabled {
            "1"
        } else {
            "0"
        }
    }

    /// What sets the fan to the speed within the limits that stands for `speed`.
    pub fn set_speed(&self, speed: u32) -> (command: SpeedCommand)
        ensures
            command.output@ == decimal(self.clamped(speed) as nat),
            command.message@ == "\x1b[1K\rSetting fan speed to "@ + decimal(
                self.clamped(speed) as nat,
            ),
            speed < self.min_speed ==> command.output@ == decimal(self.min_speed as nat),
            self.min_speed <= speed <= self.max_speed ==> command.output@ == decimal(speed as nat),
            speed >= self.min_speed && speed > self.max_speed ==> command.output@ == decimal(
                self.max_speed as nat,
            ),
            command.message@ == "\x1b[1K\rSetting fan speed to "@ + command.output@,
    {
        let mut speed: u32 = speed;
        if speed < self.min_speed {
            speed = self.min_speed;
        } else if speed > self.max_speed {
            speed = self.max_speed;
        }
        let mut message: String = "\x1b[1K\rSetting fan speed to ".to_owned();
        append_decimal(&mut message, speed);
        let mut output: String = String::new();
        append_decimal(&mut output, speed);
        SpeedCommand { message, output }
    }

    /// Whether `calc_speed` can be asked: on the curve the limits must not be the
    /// wrong way round.
    pub fn can_calc_speed(&self, temp: u8) -> (r: bool)
        ensures
            r == (self.on_curve(temp) ==> self.min_speed <= self.max_speed),
            r == (self.min_speed <= self.max_speed || self.config.always_full_speed || temp
                <= self.config.low_temp || temp >= self.config.high_temp),
    {
        self.min_speed <= self.max_speed || self.config.always_full_speed || temp
            <= self.config.low_temp || temp >= self.config.high_temp
    }

    /// The speed that a temperature asks for.
    pub fn calc_speed(&self, temp: u8) -> (r: TargetSpeed)
        requires
            self.on_curve(temp) ==> self.min_speed <= self.max_speed,
        ensures
            r == self.target(temp),
    {
        if self.config.always_full_speed {
            return TargetSpeed::Speed(self.max_speed);
        }
        if temp <= self.config.low_temp {
            return TargetSpeed::Speed(self.min_speed);
        }
        if temp >= self.config.high_temp {
            return TargetSpeed::Speed(self.max_speed);
        }
        let steps: u32 = (temp - self.config.low_temp) as u32;
        let range: u32 = (self.config.high_temp - self.config.low_temp) as u32;
        let span: u32 = self.max_speed - self.min_speed;
        match self.config.speed_curve {
            SpeedCurve::Linear => {
                proof {
                    law_share_within_span(steps as nat, range as nat, span as nat);
                }
                TargetSpeed::Speed(share_of(steps, range, span) + self.min_speed)
            },
            SpeedCurve::Exponential => {
                proof {
                    lemma_cubes(steps as nat, range as nat);
                    law_share_within_span(cube(steps as nat), cube(range as nat), span as nat);
                }
                let n: u32 = steps * steps * steps;
                let d: u32 = range * range * range;
                TargetSpeed::Speed(share_of(n, d, span) + self.min_speed)
            },
            SpeedCurve::Logarithmic => TargetSpeed::Logarithm { steps, range },
        }
    }

    /// The speed on the logarithmic curve, from the encoding of the logarithm as a
    /// single-precision number; `None` if a `u32` does not hold it.
    pub fn logarithmic_speed(&self, ratio: u32) -> (r: Option<u32>)
        requires
            self.min_speed <= self.max_speed,
        ensures
            r == raised(self.min_speed, encoded_share(ratio, self.span() as u32)),
            ({
                let sum = self.min_speed + encoded_share(
                    ratio,
                    (self.max_speed - self.min_speed) as u32,
                );
                match r {
                    Some(speed) => speed == sum,
                    None => sum > u32::MAX,
                }
            }),
    {
        let part: u32 = share_of_encoded(ratio, self.max_speed - self.min_speed);
        self.min_speed.checked_add(part)
    }
}

/// The cubes of the distances between two temperatures have at most 24 bits.
proof fn lemma_cubes(steps: nat, range: nat)
    requires
        steps < range <= 255,
    ensures
        steps * steps <= 255 * 255,
        range * range <= 255 * 255,
        cube(steps) < cube(range) <= 255 * 255 * 255,
{
    assert(steps * steps <= range * range <= 255 * 255 && range * range > 0) by (nonlinear_arith)
        requires
            steps < range <= 255,
    ;
    assert(cube(steps) < cube(range)) by (nonlinear_arith)
        requires
            steps < range,
            steps * steps <= range * range,
            cube(steps) == steps * steps * steps,
            cube(range) == range * range * range,
            range * range > 0,
    ;
    assert(cube(range) <= 255 * 255 * 255) by (nonlinear_arith)
        requires
            range <= 255,
            range * range <= 255 * 255,
            cube(range) == range * range * range,
    ;
}

/// Reads a fan's lowest speed; white space around the number does not matter.
pub fn parse_min_speed(text: &str) -> (r: Result<u32, Error>)
    ensures
        r == (match parsed(trimmed(text@)) {
            Ok(n) => Ok::<u32, Error>(n),
            Err(e) => Err(Error::MinSpeedParse(e)),
        }),
{
    match parse_trimmed(text) {
        Ok(n) => Ok(n),
        Err(e) => Err(Error::MinSpeedParse(e)),
    }
}

/// Reads a fan's highest speed; white space after the number does not matter.
pub fn parse_max_speed(text: &str) -> (r: Result<u32, Error>)
    ensures
        r == (match parsed(trimmed_end(text@)) {
            Ok(n) => Ok::<u32, Error>(n),
            Err(e) => Err(Error::MaxSpeedParse(e)),
        }),
{
    match parse_trimmed_end(text) {
        Ok(n) => Ok(n),
        Err(e) => Err(Error::MaxSpeedParse(e)),
    }
}

/// The speeds that a temperature asks of each fan, in order.
pub fn update_fan_speeds(fans: &Vec<FanController>, temperature: u8) -> (r: Vec<TargetSpeed>)
    requires
        forall|i: int|
            0 <= i < fans.len() ==> ((#[trigger] fans[i]).on_curve(temperature)
                ==> fans[i].min_speed <= fans[i].max_speed),
    ensures
        r@ == fans@.map_values(|fan: FanController| fan.target(temperature)),
{
    let mut r: Vec<TargetSpeed> = Vec::new();
    let mut i: usize = 0;
    while i < fans.len()
        invariant
            i <= fans.len(),
            forall|i: int|
                0 <= i < fans.len() ==> ((#[trigger] fans[i]).on_curve(temperature)
                    ==> fans[i].min_speed <= fans[i].max_speed),
            r@ == fans@.take(i as int).map_values(|fan: FanController| fan.target(temperature)),
        decreases fans.len() - i,
    {
        r.push(fans[i].calc_speed(temperature));
        i = i + 1;
    }
    assert(fans@.take(i as int) == fans@);
    r
}

/// Every speed that a fan is asked for lies within its limits, on the logarithmic
/// curve for every logarithm that is below one and not negative.
pub proof fn law_speed_within_limits(fan: FanController, temp: u8, ratio: u32)
    requires
        fan.min_speed <= fan.max_speed,
        ratio < ONE,
    ensures
        fan.speed(temp, ratio) matches Some(speed) && fan.min_speed <= speed <= fan.max_speed,
{
    if fan.on_curve(temp) {
        let steps = (temp - fan.config.low_temp) as nat;
        let range = (fan.config.high_temp - fan.config.low_temp) as nat;
        law_share_within_span(steps, range, fan.span());
        lemma_cubes(steps, range);
        law_share_within_span(cube(steps), cube(range), fan.span());
        law_encoded_share_within_span(ratio, fan.span() as u32);
    }
}

/// A higher temperature never asks for a lower speed, on the logarithmic curve as
/// far as a higher temperature does not have a lower logarithm.
pub proof fn law_speed_monotone(
    fan: FanController,
    temp1: u8,
    ratio1: u32,
    temp2: u8,
    ratio2: u32,
)
    requires
        fan.min_speed <= fan.max_speed,
        temp1 <= temp2,
        ratio1 <= ratio2 < ONE,
    ensures
        fan.speed(temp1, ratio1) is Some,
        fan.speed(temp2, ratio2) is Some,
        fan.speed(temp1, ratio1)->0 <= fan.speed(temp2, ratio2)->0,
{
    law_speed_within_limits(fan, temp1, ratio1);
    law_speed_within_limits(fan, temp2, ratio2);
    if fan.on_curve(temp1) && fan.on_curve(temp2) {
        let steps1 = (temp1 - fan.config.low_temp) as nat;
        let steps2 = (temp2 - fan.config.low_temp) as nat;
        let range = (fan.config.high_temp - fan.config.low_temp) as nat;
        lemma_cubes(steps1, range);
        lemma_cubes(steps2, range);
        law_share_within_span(steps2, range, fan.span());
        law_share_within_span(cube(steps2), cube(range), fan.span());
        law_share_monotone(steps1, steps2, range, fan.span());
        if steps1 < steps2 {
            lemma_cubes(steps1, steps2);
        }
        law_share_monotone(cube(steps1), cube(steps2), cube(range), fan.span());
        law_encoded_share_monotone(ratio1, ratio2, fan.span() as u32);
    }
}

/// At and below the low temperature a fan that is not held at full speed runs at
/// its lowest speed, and at and above the high temperature at its highest, whatever
/// the curve. Where both apply the lowest speed wins.
pub proof fn law_speed_at_the_ends(fan: FanController, temp: u8, ratio: u32)
    requires
        !fan.config.always_full_speed,
    ensures
        temp <= fan.config.low_temp ==> fan.speed(temp, ratio) == Some(fan.min_speed),
        temp > fan.config.low_temp && temp >= fan.config.high_temp ==> fan.speed(temp, ratio)
            == Some(fan.max_speed),
{
}

/// A fan that is held at full speed runs at its highest speed at every temperature.
pub proof fn law_full_speed(fan: FanController, temp: u8, ratio: u32)
    requires
        fan.config.always_full_speed,
    ensures
        fan.speed(temp, ratio) == Some(fan.max_speed),
{
}

/// Between the two temperatures the linear curve rises in proportion to the distance
/// from the low one, and the exponential curve to the cube of that distance, to
/// within one revolution as long as the limits lie less than 2^22 apart. On the
/// logarithmic curve the logarithm of the distance to the base of the whole range
/// is asked for.
pub proof fn law_speed_is_interpolated(fan: FanController, temp: u8)
    requires
        !fan.config.always_full_speed,
        fan.config.low_temp < temp < fan.config.high_temp,
    ensures
        ({
            let steps = temp - fan.config.low_temp;
            let range = fan.config.high_temp - fan.config.low_temp;
            let span = fan.max_speed - fan.min_speed;
            match fan.config.speed_curve {
                SpeedCurve::Linear => 0 <= span < 0x40_0000 ==> {
                    let exact = fan.min_speed + (steps * span) / range;
                    fan.target(temp) matches TargetSpeed::Speed(speed) && exact - 1 <= speed
                        <= exact + 1
                },
                SpeedCurve::Exponential => 0 <= span < 0x40_0000 ==> {
                    let exact = fan.min_speed + (steps * steps * steps * span) / (range * range
                        * range);
                    fan.target(temp) matches TargetSpeed::Speed(speed) && exact - 1 <= speed
                        <= exact + 1
                },
                SpeedCurve::Logarithmic => fan.target(temp) matches TargetSpeed::Logarithm {
                    steps: s,
                    range: r,
                } && s == steps && r == range,
            }
        }),
{
    let steps = (temp - fan.config.low_temp) as nat;
    let range = (fan.config.high_temp - fan.config.low_temp) as nat;
    if 0 <= fan.max_speed - fan.min_speed < 0x40_0000 {
        lemma_cubes(steps, range);
        law_share_within_span(steps, range, fan.span());
        law_share_within_span(cube(steps), cube(range), fan.span());
        law_share_is_close(steps, range, fan.span());
        law_share_is_close(cube(steps), cube(range), fan.span());
    }
}

/// On the logarithmic curve the speed lies above the lowest by the logarithm times the
/// difference of the limits, to within one revolution as long as that difference is
/// less than 2^22. The logarithm is below one and not negative, and it is given by
/// the fields of its encoding as the number `m * 2^e`.
pub proof fn law_logarithmic_speed_is_interpolated(
    fan: FanController,
    temp: u8,
    ratio: u32,
    m: nat,
    e: int,
)
    requires
        !fan.config.always_full_speed,
        fan.config.low_temp < temp < fan.config.high_temp,
        fan.config.speed_curve == SpeedCurve::Logarithmic,
        0 <= fan.max_speed - fan.min_speed < 0x40_0000,
        ratio < 0x3f80_0000,
        ratio / 0x80_0000 == 0 ==> m == ratio && e == -149,
        ratio / 0x80_0000 > 0 ==> m == 0x80_0000 + ratio % 0x80_0000 && e == ratio / 0x80_0000
            - 150,
    ensures
        ({
            let span = fan.max_speed - fan.min_speed;
            let exact = fan.min_speed + (m * span) / (pow2((-e) as nat) as int);
            fan.speed(temp, ratio) matches Some(speed) && exact - 1 <= speed <= exact + 1
        }),
{
    law_encoded_share_is_close(ratio, fan.span() as u32, m, e);
    law_encoded_share_within_span(ratio, fan.span() as u32);
}

/// On the linear and the exponential curve the speed is what single-precision
/// arithmetic gives, for every pair of limits. Let `qm * 2^qe` be the number of 24
/// significant bits that is nearest to the distance over the range, or to the
/// quotient of their cubes, `sm * 2^se` the one nearest to the difference of the
/// limits, and `pm * 2^(pe + qe + se)` the one nearest to their product, ties to even.
/// Then the speed lies above the lowest by the whole part of the last.
pub proof fn law_speed_is_correctly_rounded(
    fan: FanController,
    temp: u8,
    n: nat,
    d: nat,
    qm: nat,
    qe: int,
    sm: nat,
    se: int,
    pm: nat,
    pe: int,
)
    requires
        !fan.config.always_full_speed,
        fan.config.low_temp < temp < fan.config.high_temp,
        fan.min_speed < fan.max_speed,
        ({
            let steps = temp - fan.config.low_temp;
            let range = fan.config.high_temp - fan.config.low_temp;
            match fan.config.speed_curve {
                SpeedCurve::Linear => n == steps && d == range,
                SpeedCurve::Exponential => n == steps * steps * steps && d == range * range * range,
                SpeedCurve::Logarithmic => false,
            }
        }),
        ({
            let nearest = |n: nat, d: nat, m: nat, e: int|
                {
                    let a = n * pow2((if e < 0 { -e } else { 0 }) as nat);
                    let b = d * pow2((if e > 0 { e } else { 0 }) as nat);
                    &&& 0x80_0000 * b <= a < 0x100_0000 * b
                    &&& -b <= 2 * (m * b - a) <= b
                    &&& 2 * (m * b - a) == b || 2 * (m * b - a) == -b ==> m % 2 == 0
                };
            &&& nearest(n, d, qm, qe)
            &&& nearest((fan.max_speed - fan.min_speed) as nat, 1, sm, se)
            &&& nearest(qm * sm, 1, pm, pe)
        }),
    ensures
        ({
            let k = pe + qe + se;
            let whole = if k >= 0 {
                pm * pow2(k as nat)
            } else {
                pm / pow2((-k) as nat)
            };
            fan.target(temp) matches TargetSpeed::Speed(speed) && speed == fan.min_speed + whole
        }),
{
    let steps = (temp - fan.config.low_temp) as nat;
    let range = (fan.config.high_temp - fan.config.low_temp) as nat;
    lemma_cubes(steps, range);
    assert(cube(steps) > 0) by (nonlinear_arith)
        requires
            steps > 0,
            cube(steps) == steps * steps * steps,
    ;
    law_share_is_correctly_rounded(n, d, fan.span(), qm, qe, sm, se, pm, pe);
    law_share_within_span(n, d, fan.span());
}

/// The temperatures on the curve are those strictly between the bounds of a fan that
/// is not held at full speed.
pub proof fn law_on_curve(fan: FanController, temp: u8)
    ensures
        fan.on_curve(temp) <==> !fan.config.always_full_speed && fan.config.low_temp < temp && temp
            < fan.config.high_temp,
{
}

/// No speed within the limits is nearer to a speed than its clamped speed. Where the
/// limits are the wrong way round, the lowest speed is looked at first.
pub proof fn law_clamped_is_nearest(fan: FanController, speed: u32, other: u32)
    ensures
        fan.min_speed <= other <= fan.max_speed ==> abs(fan.clamped(speed) - speed) <= abs(
            other - speed,
        ),
        speed < fan.min_speed ==> fan.clamped(speed) == fan.min_speed,
        speed >= fan.min_speed && speed > fan.max_speed ==> fan.clamped(speed) == fan.max_speed,
{
}

/// The exponential curve never asks for more than the linear one.
pub proof fn law_exponential_below_linear(fan: FanController, temp: u8)
    requires
        fan.min_speed <= fan.max_speed,
    ensures
        ({
            let linear = FanController {
                config: FanConfig { speed_curve: SpeedCurve::Linear, ..fan.config },
                ..fan
            };
            let exponential = FanController {
                config: FanConfig { speed_curve: SpeedCurve::Exponential, ..fan.config },
                ..fan
            };
            &&& linear.target(temp) is Speed
            &&& exponential.target(temp) is Speed
            &&& exponential.target(temp)->Speed_0 <= linear.target(temp)->Speed_0
        }),
{
    if fan.on_curve(temp) {
        let steps = (temp - fan.config.low_temp) as nat;
        let range = (fan.config.high_temp - fan.config.low_temp) as nat;
        let c = range * range;
        assert(c > 0 && c * range == cube(range) && cube(steps) <= c * steps) by (nonlinear_arith)
            requires
                steps < range,
                c == range * range,
                cube(range) == range * range * range,
                cube(steps) == steps * steps * steps,
        ;
        lemma_cubes(steps, range);
        law_share_common_factor(steps, range, c, fan.span());
        law_share_monotone(cube(steps), c * steps, cube(range), fan.span());
        law_share_within_span(steps, range, fan.span());
    }
}

/// A clamped speed lies within the limits, and a speed within the limits is its own
/// clamped speed.
pub proof fn law_clamped(fan: FanController, speed: u32)
    requires
        fan.min_speed <= fan.max_speed,
    ensures
        fan.min_speed <= fan.clamped(speed) <= fan.max_speed,
        fan.min_speed <= speed <= fan.max_speed ==> fan.clamped(speed) == speed,
        fan.clamped(fan.clamped(speed)) == fan.clamped(speed),
{
}

/// A computed speed passes through `set_speed` unchanged: what is written to the
/// output file reads as that speed.
pub proof fn law_computed_speed_is_written(fan: FanController, temp: u8, ratio: u32)
    requires
        fan.min_speed <= fan.max_speed,
        ratio < ONE,
    ensures
        fan.speed(temp, ratio) matches Some(speed) && parsed(decimal(fan.clamped(speed) as nat))
            == Ok::<u32, ParseError>(speed),
{
    law_speed_within_limits(fan, temp, ratio);
    law_decimal_round_trip(fan.speed(temp, ratio)->0, Seq::empty());
}

/// Limits written in decimal notation and closed by white space are read back.
pub proof fn law_limits_round_trip(min: u32, max: u32, rest: Seq<char>)
    requires
        is_blank(rest),
    ensures
        limits(decimal(min as nat) + rest, decimal(max as nat) + rest) == Ok::<(u32, u32), Error>(
            (min, max),
        ),
{
    law_decimal_round_trip(min, rest);
    law_decimal_round_trip(max, rest);
}

} // verus!
