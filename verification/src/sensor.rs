//! Temperature sensors: what their files say and which of them are used.

use crate::error::Error;
use crate::text::{
    decimal, is_blank, law_decimal_round_trip, parse_trimmed_end, parsed, trimmed_end, ParseError,
};
use vstd::prelude::*;

verus! {

/// The temperature in degrees that a sensor's file gives in thousandths. Only the
/// low byte of the whole degrees is kept.
pub open spec fn temperature(text: Seq<char>) -> Result<u8, Error> {
    match parsed(trimmed_end(text)) {
        Ok(n) => Ok(((n / 1000) % 256) as u8),
        Err(e) => Err(Error::TempParse(e)),
    }
}

/// The higher of two temperatures, or the only one.
pub open spec fn hotter(cpu: u8, gpu: Option<u8>) -> u8 {
    match gpu {
        Some(t) if t > cpu => t,
        _ => cpu,
    }
}

/// The temperature of a processor and, if there is one, of a graphics card; the
/// first file that is no number decides.
pub open spec fn current_temperature(cpu: Seq<char>, gpu: Option<Seq<char>>) -> Result<u8, Error> {
    match (temperature(cpu), gpu) {
        (Err(e), _) => Err(e),
        (Ok(c), None) => Ok(c),
        (Ok(c), Some(text)) => match temperature(text) {
            Err(e) => Err(e),
            Ok(g) => Ok(hotter(c, Some(g))),
        },
    }
}

/// Reads a sensor's file.
pub fn parse_temp(text: &str) -> (r: Result<u8, Error>)
    ensures
        r == temperature(text@),
        match parsed(trimmed_end(text@)) {
            Ok(n) => r matches Ok(t) && (n as int / 1000 - t) % 256 == 0,
            Err(e) => r == Err::<u8, Error>(Error::TempParse(e)),
        },
{
    match parse_trimmed_end(text) {
        Ok(n) => {
            let degrees: u32 = (n / 1000) % 256;
            Ok(degrees as u8)
        },
        Err(e) => Err(Error::TempParse(e)),
    }
}

/// Reads the files of both sensors and gives the higher temperature.
pub fn read_current_temperature(cpu_text: &str, gpu_text: Option<&str>) -> (r: Result<u8, Error>)
    ensures
        r == current_temperature(
            cpu_text@,
            match gpu_text {
                Some(text) => Some(text@),
                None => None,
            },
        ),
{
    let cpu_temp: u8 = match parse_temp(cpu_text) {
        Ok(t) => t,
        Err(e) => return Err(e),
    };
    match gpu_text {
        Some(text) => match parse_temp(text) {
            Ok(gpu_temp) => Ok(if gpu_temp > cpu_temp {
                gpu_temp
            } else {
                cpu_temp
            }),
            Err(e) => Err(e),
        },
        None => Ok(cpu_temp),
    }
}

/// What came of trying the next file that may be a sensor's.
pub enum Candidate {
    /// The directory entry could not be read.
    BadPath,
    /// The file could not be opened.
    Unopened,
    /// The file could not be read or rewound.
    Unread,
    /// The file holds this.
    Contents(String),
}

/// What to do with a candidate.
pub enum Choice {
    /// Take it, and look no further.
    Take,
    /// Go on to the next.
    Skip,
    /// Say so and go on to the next.
    SkipWith(&'static str),
}

/// The candidate can serve as a sensor.
pub open spec fn usable(candidate: Candidate) -> bool {
    candidate matches Candidate::Contents(text) && temperature(text@) is Ok
}

/// Decides on one candidate. The first that holds a temperature is taken.
pub fn choose_sensor(candidate: &Candidate) -> (choice: Choice)
    ensures
        choice is Take <==> usable(*candidate),
        *candidate matches Candidate::Contents(text) ==> (choice is Take <==> parsed(
            trimmed_end(text@),
        ) is Ok),
        match *candidate {
            Candidate::BadPath => choice matches Choice::SkipWith(message) && message@
                == "Unable to read glob path"@,
            Candidate::Unopened => choice matches Choice::SkipWith(message) && message@
                == "Unable to open temperature sensor"@,
            _ => !(choice is SkipWith),
        },
{
    match candidate {
        Candidate::BadPath => Choice::SkipWith("Unable to read glob path"),
        Candidate::Unopened => Choice::SkipWith("Unable to open temperature sensor"),
        Candidate::Unread => Choice::Skip,
        Candidate::Contents(text) => match parse_temp(text.as_str()) {
            Ok(_) => Choice::Take,
            Err(_) => Choice::Skip,
        },
    }
}

/// There must be a processor sensor.
pub fn require_cpu<F>(file: Option<F>) -> (r: Result<F, Error>)
    ensures
        r == (match file {
            Some(f) => Ok::<F, Error>(f),
            None => Err(Error::NoCpu),
        }),
{
    match file {
        Some(f) => Ok(f),
        None => Err(Error::NoCpu),
    }
}

/// A file that gives a temperature below 256 degrees in decimal notation, closed by
/// white space, reads as the whole degrees.
pub proof fn law_temperature_of_decimal(n: u32, rest: Seq<char>)
    requires
        n < 256_000,
        is_blank(rest),
    ensures
        temperature(decimal(n as nat) + rest) == Ok::<u8, Error>((n / 1000) as u8),
{
    law_decimal_round_trip(n, rest);
}

/// The current temperature is no lower than that of either sensor, and it is that of
/// one of them.
pub proof fn law_current_temperature_is_highest(cpu: Seq<char>, gpu: Seq<char>)
    requires
        temperature(cpu) is Ok,
        temperature(gpu) is Ok,
    ensures
        current_temperature(cpu, None) == temperature(cpu),
        current_temperature(cpu, Some(gpu)) matches Ok(t) && t >= temperature(cpu)->Ok_0 && t
            >= temperature(gpu)->Ok_0 && (t == temperature(cpu)->Ok_0 || t == temperature(
            gpu,
        )->Ok_0),
{
}

/// A temperature is read exactly where a number is, and it is then the low byte of
/// the whole degrees, a degree being a thousand of what the file counts.
pub proof fn law_temperature_in_thousandths(text: Seq<char>, n: u32)
    ensures
        temperature(text) is Ok <==> parsed(trimmed_end(text)) is Ok,
        parsed(trimmed_end(text)) == Ok::<u32, ParseError>(n) ==> (n as int / 1000 - temperature(
            text,
        )->Ok_0) % 256 == 0,
        parsed(trimmed_end(text)) == Ok::<u32, ParseError>(n) && n < 256_000 ==> 1000
            * temperature(text)->Ok_0 <= n < 1000 * temperature(text)->Ok_0 + 1000,
        parsed(trimmed_end(text)) matches Err(e) ==> temperature(text) == Err::<u8, Error>(
            Error::TempParse(e),
        ),
{
}

/// The first sensor whose file is no number is the one that is reported.
pub proof fn law_first_bad_sensor_is_reported(cpu: Seq<char>, gpu: Option<Seq<char>>)
    ensures
        temperature(cpu) is Err ==> current_temperature(cpu, gpu) == temperature(cpu),
        temperature(cpu) is Ok && gpu is Some && temperature(gpu->0) is Err
            ==> current_temperature(cpu, gpu) == temperature(gpu->0),
{
}

/// A candidate can serve as a sensor exactly if its file was read and holds a number,
/// whatever the number: white space at its end aside, the whole text must parse.
pub proof fn law_usable_is_readable(candidate: Candidate)
    ensures
        usable(candidate) <==> (candidate matches Candidate::Contents(text) && parsed(
            trimmed_end(text@),
        ) is Ok),
{
}

/// A file that holds any number in decimal notation, closed by white space, can serve
/// as a sensor's.
pub proof fn law_decimal_is_usable(text: String, n: u32, rest: Seq<char>)
    requires
        text@ == decimal(n as nat) + rest,
        is_blank(rest),
    ensures
        usable(Candidate::Contents(text)),
{
    law_decimal_round_trip(n, rest);
}

} // verus!
