use t2fand::discovery::{
    fan_file_name, fan_input_pattern, find_fan_paths, FanFile, CPU_PATTERN, FAN_PATTERN,
    GPU_PATTERN,
};
use t2fand::error::Error;
use t2fand::pid_file::{check_pid_file, check_process, pid_text, PidFileRead, PidStep};
use t2fand::sensor::{
    choose_sensor, parse_temp, read_current_temperature, require_cpu, Candidate, Choice,
};
use t2fand::session::{check_root, Phase};
use t2fand::text::{append_decimal, parse_trimmed, parse_trimmed_end, ParseError};

const SAMPLES: [&str; 36] = [
    "", "0", "7", "42", "+5", "+", "-", "-5", "++5", "+-5", "007", "4294967295", "4294967296",
    "42949672950", "99999999999", "+4294967295", "+4294967296", "99999999999x", "4294967295x",
    "4294967296x", "x", "12a", "1 2", " 12", "12 ", "12\n", "\t12\r\n", "\u{a0}12\u{3000}",
    "\u{2003}", " ", "\n\n", "+ 1", "\u{661}", "1\u{200b}", "0x10", "00000000000000000001",
];

/// The kind of the error that the standard library gives.
fn reference(s: &str) -> Result<u32, ParseError> {
    s.parse::<u32>().map_err(|e| match format!("{:?}", e.kind()).as_str() {
        "Empty" => ParseError::Empty,
        "InvalidDigit" => ParseError::InvalidDigit,
        "PosOverflow" => ParseError::PosOverflow,
        _ => panic!("unexpected kind"),
    })
}

#[test]
fn parsing_agrees_with_the_standard_library() {
    for s in SAMPLES.iter() {
        assert_eq!(parse_trimmed_end(s), reference(s.trim_end()));
        assert_eq!(parse_trimmed(s), reference(s.trim()));
    }
}

#[test]
fn short_texts_agree_with_the_standard_library() {
    let alphabet = ['0', '9', '+', '-', ' ', '\n', 'a', '\u{85}'];
    for a in alphabet.iter() {
        for b in alphabet.iter() {
            for c in alphabet.iter() {
                let s: String = [*a, *b, *c].iter().collect();
                assert_eq!(parse_trimmed_end(&s), reference(s.trim_end()));
                assert_eq!(parse_trimmed(&s), reference(s.trim()));
            }
        }
    }
}

#[test]
fn white_space_agrees_with_the_standard_library() {
    for n in 0..=0x10ffffu32 {
        if let Some(c) = char::from_u32(n) {
            if n < 0x3100 || n % 997 == 0 {
                let s: String = format!("{c}5{c}");
                assert_eq!(parse_trimmed(&s) == Ok(5), c.is_whitespace());
                assert_eq!(parse_trimmed(&s), reference(s.trim()));
            }
        }
    }
}

#[test]
fn numbers_are_written_in_decimal() {
    for n in [0u32, 1, 9, 10, 99, 100, 4900, 1_000_000, 4_294_967_295].iter() {
        let mut s = String::from("n=");
        append_decimal(&mut s, *n);
        assert_eq!(s, format!("n={n}"));
        assert_eq!(parse_trimmed_end(&format!("{}\n", &s[2..])), Ok(*n));
    }
}

#[test]
fn sensors_give_thousandths() {
    assert_eq!(parse_temp("45000\n"), Ok(45));
    assert_eq!(parse_temp("45999\n"), Ok(45));
    assert_eq!(parse_temp("0"), Ok(0));
    assert_eq!(parse_temp("255999"), Ok(255));
    assert_eq!(parse_temp("256000"), Ok(0));
    assert_eq!(parse_temp("4294967295"), Ok((4_294_967u32 % 256) as u8));
}

#[test]
fn bad_sensor_texts() {
    assert_eq!(parse_temp(""), Err(Error::TempParse(ParseError::Empty)));
    assert_eq!(parse_temp("-5000\n"), Err(Error::TempParse(ParseError::InvalidDigit)));
    assert_eq!(parse_temp(" 5000\n"), Err(Error::TempParse(ParseError::InvalidDigit)));
    assert_eq!(parse_temp("9999999999\n"), Err(Error::TempParse(ParseError::PosOverflow)));
}

#[test]
fn the_higher_temperature_counts() {
    assert_eq!(read_current_temperature("45000\n", None), Ok(45));
    assert_eq!(read_current_temperature("45000\n", Some("50000\n")), Ok(50));
    assert_eq!(read_current_temperature("55000\n", Some("50000\n")), Ok(55));
    assert_eq!(read_current_temperature("55000\n", Some("55999\n")), Ok(55));
}

#[test]
fn the_first_bad_sensor_counts() {
    assert_eq!(
        read_current_temperature("", Some("x")),
        Err(Error::TempParse(ParseError::Empty))
    );
    assert_eq!(
        read_current_temperature("1000", Some("x")),
        Err(Error::TempParse(ParseError::InvalidDigit))
    );
}

#[test]
fn sensors_are_chosen() {
    assert!(matches!(
        choose_sensor(&Candidate::BadPath),
        Choice::SkipWith("Unable to read glob path")
    ));
    assert!(matches!(
        choose_sensor(&Candidate::Unopened),
        Choice::SkipWith("Unable to open temperature sensor")
    ));
    assert!(matches!(choose_sensor(&Candidate::Unread), Choice::Skip));
    assert!(matches!(choose_sensor(&Candidate::Contents(String::from("x"))), Choice::Skip));
    assert!(matches!(choose_sensor(&Candidate::Contents(String::from("4000\n"))), Choice::Take));
}

#[test]
fn a_processor_sensor_is_required() {
    assert_eq!(require_cpu(Some(3u8)), Ok(3u8));
    assert_eq!(require_cpu::<u8>(None), Err(Error::NoCpu));
}

fn probed(pid: &str) -> String {
    match check_pid_file(PidFileRead::Contents(String::from(pid))) {
        PidStep::Probe(path) => path,
        _ => panic!("no path to probe"),
    }
}

#[test]
fn processes_are_looked_up_as_paths_join() {
    for pid in ["1234", "", "12\n", "/etc", "/", "a/b", "../tmp"].iter() {
        let mut path = std::path::PathBuf::new();
        path.push("/proc");
        path.push(pid);
        assert_eq!(probed(pid), path.to_str().unwrap());
    }
}

#[test]
fn pid_file_decisions() {
    assert!(matches!(check_pid_file(PidFileRead::Missing), PidStep::Claim));
    assert!(matches!(check_pid_file(PidFileRead::Failed), PidStep::Refuse(Error::PidRead)));
    assert!(matches!(check_process(true), PidStep::Refuse(Error::AlreadyRunning)));
    assert!(matches!(check_process(false), PidStep::Claim));
}

#[test]
fn own_pid_is_found_again() {
    assert_eq!(pid_text(4321), "4321");
    assert_eq!(probed(&pid_text(4321)), "/proc/4321");
}

#[test]
fn fan_files_are_named_after_the_fan() {
    assert_eq!(fan_file_name("fan1", FanFile::Min), "fan1_min");
    assert_eq!(fan_file_name("fan1", FanFile::Max), "fan1_max");
    assert_eq!(fan_file_name("fan2", FanFile::Manual), "fan2_manual");
    assert_eq!(fan_file_name("fan2", FanFile::Output), "fan2_output");
}

#[test]
fn patterns() {
    assert_eq!(fan_input_pattern("/sys/x/APP0001:00"), "/sys/x/APP0001:00/fan*_input");
    assert_eq!(FAN_PATTERN, "/sys/devices/pci*/*/*/*/APP0001:00/fan*");
    assert_eq!(CPU_PATTERN, "/sys/devices/platform/coretemp.0/hwmon/hwmon*/temp1_input");
    assert_eq!(GPU_PATTERN, "/sys/class/drm/card0/device/hwmon/hwmon*/temp1_input");
}

fn strings(s: &[&str]) -> Vec<String> {
    s.iter().map(|x| String::from(*x)).collect()
}

#[test]
fn fans_are_found_in_order() {
    let found =
        find_fan_paths(&strings(&["/a/fan2_input", "/a/fan1_label", "/a/fan1_input"])).unwrap();
    assert_eq!(found.head, "/a/fan2");
    assert_eq!(found.tail, strings(&["/a/fan1"]));
}

#[test]
fn no_fan() {
    assert!(matches!(find_fan_paths(&Vec::new()), Err(Error::NoFan)));
    assert!(matches!(find_fan_paths(&strings(&["/a/fan1_label", "input"])), Err(Error::NoFan)));
}

#[test]
fn only_root_may_run() {
    assert_eq!(check_root(0), Ok(()));
    assert_eq!(check_root(1000), Err(Error::NotRoot));
}

/// Runs a session whose phases succeed but for the named ones.
fn run(
    fans: usize,
    bad_enable: Option<usize>,
    control: Result<(), &'static str>,
    bad_disable: Option<usize>,
    removal: Result<(), &'static str>,
) -> (Vec<String>, Result<(), &'static str>) {
    let mut log: Vec<String> = Vec::new();
    let mut phase: Phase<&'static str> = Phase::start(fans);
    loop {
        let result = match &phase {
            Phase::Enable { fan } => {
                log.push(format!("+{fan}"));
                if bad_enable == Some(*fan) { Err("enable") } else { Ok(()) }
            }
            Phase::Control => {
                log.push(String::from("control"));
                control
            }
            Phase::Disable { fan, .. } => {
                log.push(format!("-{fan}"));
                if bad_disable == Some(*fan) { Err("disable") } else { Ok(()) }
            }
            Phase::RemovePid { .. } => {
                log.push(String::from("remove"));
                removal
            }
            Phase::Exit(outcome) => return (log, *outcome),
        };
        phase = phase.step(fans, result);
    }
}

#[test]
fn sessions_hand_the_fans_back() {
    for control in [Ok(()), Err("control")].iter() {
        let (log, outcome) = run(2, None, *control, None, Ok(()));
        assert_eq!(log, strings(&["+0", "+1", "control", "-0", "-1", "remove"]));
        assert_eq!(outcome, *control);
    }
}

#[test]
fn sessions_end_with_the_first_failure() {
    assert_eq!(run(1, None, Ok(()), None, Err("remove")).1, Err("remove"));
    assert_eq!(run(1, None, Err("control"), None, Err("remove")).1, Err("control"));
    assert_eq!(run(1, None, Ok(()), None, Ok(())).1, Ok(()));
}

#[test]
fn fans_that_cannot_be_switched_end_a_session() {
    let (log, outcome) = run(3, Some(1), Ok(()), None, Ok(()));
    assert_eq!(log, strings(&["+0", "+1"]));
    assert_eq!(outcome, Err("enable"));
    let (log, outcome) = run(3, None, Err("control"), Some(1), Ok(()));
    assert_eq!(log, strings(&["+0", "+1", "+2", "control", "-0", "-1"]));
    assert_eq!(outcome, Err("disable"));
}

#[test]
fn a_session_without_fans() {
    let (log, outcome) = run(0, None, Ok(()), None, Ok(()));
    assert_eq!(log, strings(&["control", "remove"]));
    assert_eq!(outcome, Ok(()));
}

#[test]
fn an_ended_session_stays_ended() {
    let ended: Phase<&'static str> = Phase::Exit(Err("control"));
    assert!(matches!(ended.step(2, Ok(())), Phase::Exit(Err("control"))));
}
