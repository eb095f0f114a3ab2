//! The pid file, by which a second daemon notices the first.

use crate::error::Error;
use crate::text::{append_decimal, decimal, is_digit, law_decimal_value};
use vstd::prelude::*;

verus! {

/// What came of reading the pid file.
pub enum PidFileRead {
    /// It holds this.
    Contents(String),
    /// There is none.
    Missing,
    /// It could not be read.
    Failed,
}

/// What to do next about the pid file.
pub enum PidStep {
    /// See whether this path exists.
    Probe(String),
    /// Write the own pid into the file.
    Claim,
    /// Do not start.
    Refuse(Error),
}

/// The directory of the process that a pid file names: a relative path is taken
/// below `/proc`, an absolute one as it is.
pub open spec fn process_path(pid: Seq<char>) -> Seq<char> {
    if pid.len() > 0 && pid.first() == '/' {
        pid
    } else {
        "/proc/"@ + pid
    }
}

/// Decides on what the pid file says.
pub fn check_pid_file(read: PidFileRead) -> (step: PidStep)
    ensures
        match read {
            PidFileRead::Contents(pid) => step matches PidStep::Probe(path) && path@
                == process_path(pid@),
            PidFileRead::Missing => step is Claim,
            PidFileRead::Failed => step == PidStep::Refuse(Error::PidRead),
        },
        read matches PidFileRead::Contents(pid) ==> {
            let path = if pid@.len() > 0 && pid@[0] == '/' {
                pid@
            } else {
                "/proc/"@ + pid@
            };
            step matches PidStep::Probe(probed) && probed@ == path
        },
{
    match read {
        PidFileRead::Contents(pid) => {
            if pid.as_str().unicode_len() > 0 && pid.as_str().get_char(0) == '/' {
                PidStep::Probe(pid)
            } else {
                let mut path: String = "/proc/".to_owned();
                path.append(pid.as_str());
                PidStep::Probe(path)
            }
        },
        PidFileRead::Missing => PidStep::Claim,
        PidFileRead::Failed => PidStep::Refuse(Error::PidRead),
    }
}

/// Decides on whether the probed path exists.
pub fn check_process(exists: bool) -> (step: PidStep)
    ensures
        exists ==> step == PidStep::Refuse(Error::AlreadyRunning),
        !exists ==> step is Claim,
{
    if exists {
        PidStep::Refuse(Error::AlreadyRunning)
    } else {
        PidStep::Claim
    }
}

/// What a daemon writes into the pid file.
pub fn pid_text(pid: u32) -> (text: String)
    ensures
        text@ == decimal(pid as nat),
{
    let mut text: String = String::new();
    append_decimal(&mut text, pid);
    text
}

/// The next daemon looks for the process that wrote the file below `/proc`.
pub proof fn law_own_process_is_probed(pid: u32)
    ensures
        process_path(decimal(pid as nat)) == "/proc/"@ + decimal(pid as nat),
{
    law_decimal_value(pid as nat);
    assert(is_digit(decimal(pid as nat)[0]));
}

/// A relative path is looked up below `/proc`, and an absolute one as it is.
pub proof fn law_process_path(pid: Seq<char>)
    ensures
        pid.len() > 0 && pid[0] == '/' ==> process_path(pid) == pid,
        pid.len() == 0 || pid[0] != '/' ==> process_path(pid) == seq![
            '/',
            'p',
            'r',
            'o',
            'c',
            '/',
        ] + pid,
{
    reveal_strlit("/proc/");
    assert("/proc/"@ == seq!['/', 'p', 'r', 'o', 'c', '/']);
}

} // verus!
