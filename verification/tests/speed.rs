use t2fand::binary32::{share_of, share_of_encoded};
use t2fand::config::{FanConfig, SpeedCurve};
use t2fand::error::Error;
use t2fand::fan_controller::{
    parse_max_speed, parse_min_speed, update_fan_speeds, FanController, TargetSpeed,
};
use t2fand::text::ParseError;

fn fan(curve: SpeedCurve, low: u8, high: u8, min: u32, max: u32) -> FanController {
    FanController {
        config: FanConfig {
            low_temp: low,
            high_temp: high,
            speed_curve: curve,
            always_full_speed: false,
        },
        min_speed: min,
        max_speed: max,
    }
}

fn speed(fan: &FanController, temp: u8) -> u32 {
    match fan.calc_speed(temp) {
        TargetSpeed::Speed(s) => s,
        TargetSpeed::Logarithm { steps, range } => fan
            .logarithmic_speed((steps as f32).log(range as f32).to_bits())
            .unwrap(),
    }
}

/// The same curves in floating point.
fn float_speed(fan: &FanController, temp: u8) -> u32 {
    let steps = (temp - fan.config.low_temp) as u32;
    let range = (fan.config.high_temp - fan.config.low_temp) as u32;
    let span = (fan.max_speed - fan.min_speed) as f32;
    let part = match fan.config.speed_curve {
        SpeedCurve::Linear => steps as f32 / range as f32 * span,
        SpeedCurve::Exponential => steps.pow(3) as f32 / range.pow(3) as f32 * span,
        SpeedCurve::Logarithmic => (steps as f32).log(range as f32) * span,
    };
    part as u32 + fan.min_speed
}

fn compare_curve(curve: SpeedCurve) {
    let limits: [(u32, u32); 9] = [
        (0, 0),
        (1000, 1001),
        (1299, 6199),
        (0, 16_777_215),
        (7, 16_777_224),
        (1, 33_554_435),
        (0, u32::MAX),
        (1, u32::MAX),
        (200, u32::MAX - 100),
    ];
    for &(min, max) in limits.iter() {
        for low in (0..=253u8).step_by(11) {
            for high in low + 2..=255u8 {
                let fan = fan(curve, low, high, min, max);
                for temp in low + 1..high {
                    if (temp as usize + high as usize) % 3 == 0 {
                        assert_eq!(speed(&fan, temp), float_speed(&fan, temp));
                    }
                }
            }
        }
    }
}

#[test]
fn linear_curve_agrees_with_floating_point() {
    compare_curve(SpeedCurve::Linear);
}

#[test]
fn exponential_curve_agrees_with_floating_point() {
    compare_curve(SpeedCurve::Exponential);
}

#[test]
fn logarithmic_curve_agrees_with_floating_point() {
    compare_curve(SpeedCurve::Logarithmic);
}

#[test]
fn linear_curve_has_exact_values() {
    let fan = fan(SpeedCurve::Linear, 50, 80, 1000, 2000);
    assert_eq!(speed(&fan, 60), 1333);
    assert_eq!(speed(&fan, 65), 1500);
    assert_eq!(speed(&fan, 79), 1966);
}

#[test]
fn exponential_curve_has_exact_values() {
    let fan = fan(SpeedCurve::Exponential, 50, 80, 1000, 2000);
    assert_eq!(speed(&fan, 60), 1037);
    assert_eq!(speed(&fan, 65), 1125);
    assert_eq!(speed(&fan, 79), 1903);
}

#[test]
fn logarithmic_curve_asks_for_a_logarithm() {
    let fan = fan(SpeedCurve::Logarithmic, 50, 80, 1000, 2000);
    assert_eq!(
        fan.calc_speed(60),
        TargetSpeed::Logarithm { steps: 10, range: 30 }
    );
    assert_eq!(speed(&fan, 51), 1000);
    assert_eq!(speed(&fan, 60), 1676);
}

#[test]
fn ends_of_the_curve() {
    for &curve in [SpeedCurve::Linear, SpeedCurve::Exponential, SpeedCurve::Logarithmic].iter() {
        let fan = fan(curve, 50, 80, 1000, 2000);
        assert_eq!(fan.calc_speed(0), TargetSpeed::Speed(1000));
        assert_eq!(fan.calc_speed(50), TargetSpeed::Speed(1000));
        assert_eq!(fan.calc_speed(80), TargetSpeed::Speed(2000));
        assert_eq!(fan.calc_speed(255), TargetSpeed::Speed(2000));
    }
}

#[test]
fn bounds_in_the_wrong_order_leave_no_curve() {
    let fan = fan(SpeedCurve::Linear, 80, 50, 1000, 2000);
    assert_eq!(fan.calc_speed(60), TargetSpeed::Speed(1000));
    assert_eq!(fan.calc_speed(80), TargetSpeed::Speed(1000));
    assert_eq!(fan.calc_speed(81), TargetSpeed::Speed(2000));
}

#[test]
fn full_speed_at_every_temperature() {
    let mut fan = fan(SpeedCurve::Linear, 50, 80, 1000, 2000);
    fan.config.always_full_speed = true;
    for temp in 0..=255u8 {
        assert_eq!(fan.calc_speed(temp), TargetSpeed::Speed(2000));
    }
}

#[test]
fn speeds_rise_within_the_limits() {
    for &curve in [SpeedCurve::Linear, SpeedCurve::Exponential, SpeedCurve::Logarithmic].iter() {
        let fan = fan(curve, 20, 250, 1299, 6199);
        let mut last = 0;
        for temp in 0..=255u8 {
            let s = speed(&fan, temp);
            assert!(1299 <= s && s <= 6199);
            assert!(last <= s);
            last = s;
        }
    }
}

#[test]
fn linear_speeds_are_proportional() {
    let fan = fan(SpeedCurve::Linear, 20, 250, 1299, 6199);
    for temp in 21..250u32 {
        let exact = 1299 + (temp - 20) * 4900 / 230;
        let s = speed(&fan, temp as u8);
        assert!(exact - 1 <= s && s <= exact + 1);
    }
}

#[test]
fn exponential_is_no_faster_than_linear() {
    let linear = fan(SpeedCurve::Linear, 20, 250, 1299, 6199);
    let exponential = fan(SpeedCurve::Exponential, 20, 250, 1299, 6199);
    for temp in 0..=255u8 {
        assert!(speed(&exponential, temp) <= speed(&linear, temp));
    }
}

#[test]
fn limits_in_the_wrong_order_are_noticed_on_the_curve_only() {
    let fan = fan(SpeedCurve::Linear, 50, 80, 2000, 1000);
    assert!(fan.can_calc_speed(50));
    assert!(!fan.can_calc_speed(51));
    assert!(!fan.can_calc_speed(79));
    assert!(fan.can_calc_speed(80));
    assert_eq!(fan.calc_speed(50), TargetSpeed::Speed(2000));
    assert_eq!(fan.calc_speed(80), TargetSpeed::Speed(1000));
    assert!(self::fan(SpeedCurve::Linear, 50, 80, 5, 5).can_calc_speed(60));
}

#[test]
fn shares_agree_with_floating_point() {
    for d in [2u32, 3, 7, 10, 255, 16_581_375, 16_777_215].iter() {
        for n in [0u32, 1, 2, 3, 6, 9, 254, 8_388_607, 16_194_277, 16_777_214].iter() {
            if n < d {
                for span in [0u32, 1, 2, 10, 4900, 16_777_217, 16_777_219, 4_294_967_167, u32::MAX]
                    .iter()
                {
                    let expected = (*n as f32 / *d as f32 * *span as f32) as u32;
                    assert_eq!(share_of(*n, *d, *span), expected);
                }
            }
        }
    }
}

#[test]
fn equal_fractions_take_equal_shares() {
    for span in [1u32, 999, 4900, u32::MAX].iter() {
        assert_eq!(share_of(2, 3, *span), share_of(20, 30, *span));
        assert_eq!(share_of(2, 3, *span), share_of(2_000_002, 3_000_003, *span));
    }
}

#[test]
fn encoded_shares_agree_with_floating_point() {
    let mut bits: Vec<u32> = vec![
        0,
        1,
        0x7f_ffff,
        0x80_0000,
        0x3f7f_ffff,
        0x3f80_0000,
        0x3f80_0001,
        0x4f7f_ffff,
        0x4f80_0000,
        0x7f7f_ffff,
        0x7f80_0000,
        0x7f80_0001,
        0x7fc0_0000,
        0x8000_0000,
        0x8000_0001,
        0xbf00_0000,
        0xff80_0000,
        0xffff_ffff,
    ];
    let mut b: u32 = 12345;
    for _ in 0..20_000 {
        b = b.wrapping_mul(1_664_525).wrapping_add(1_013_904_223);
        bits.push(b);
        bits.push(0x3000_0000 + (b >> 4));
    }
    for bits in bits.iter() {
        for span in [0u32, 1, 3, 4900, 16_777_217, u32::MAX].iter() {
            let expected = (f32::from_bits(*bits) * *span as f32) as u32;
            assert_eq!(share_of_encoded(*bits, *span), expected);
        }
    }
}

#[test]
fn encoded_shares_below_one_keep_to_the_span() {
    for span in [0u32, 1, 16_777_217, 16_777_219, 33_554_431, 4_294_967_167, u32::MAX].iter() {
        assert!(share_of_encoded(0x3f7f_ffff, *span) <= *span);
        assert!(share_of_encoded(0x3f00_0000, *span) <= share_of_encoded(0x3f7f_ffff, *span));
    }
}

#[test]
fn logarithmic_speed_that_does_not_fit() {
    let fan = fan(SpeedCurve::Logarithmic, 50, 80, 1, u32::MAX);
    assert_eq!(fan.logarithmic_speed(0x3f80_0000), None);
    assert_eq!(fan.logarithmic_speed(0x7f80_0000), None);
    assert_eq!(fan.logarithmic_speed(0x7fc0_0000), Some(1));
    assert_eq!(fan.logarithmic_speed(0x3f7f_ffff), Some(4_294_967_041));
}

#[test]
fn speeds_of_several_fans_come_in_order() {
    let fans = vec![
        fan(SpeedCurve::Linear, 50, 80, 1000, 2000),
        fan(SpeedCurve::Linear, 70, 80, 1200, 3000),
        fan(SpeedCurve::Logarithmic, 50, 80, 1000, 2000),
    ];
    let speeds = update_fan_speeds(&fans, 65);
    assert_eq!(
        speeds,
        vec![
            TargetSpeed::Speed(1500),
            TargetSpeed::Speed(1200),
            TargetSpeed::Logarithm { steps: 15, range: 30 },
        ]
    );
    assert!(update_fan_speeds(&Vec::new(), 65).is_empty());
}

#[test]
fn set_speed_clamps_and_writes() {
    let fan = fan(SpeedCurve::Linear, 50, 80, 1000, 2000);
    let cases = [
        (0u32, "1000"),
        (999, "1000"),
        (1000, "1000"),
        (1234, "1234"),
        (2000, "2000"),
        (2001, "2000"),
        (u32::MAX, "2000"),
    ];
    for &(asked, written) in cases.iter() {
        let command = fan.set_speed(asked);
        assert_eq!(command.output, written);
        assert_eq!(
            command.message,
            format!("\x1b[1K\rSetting fan speed to {written}")
        );
    }
}

#[test]
fn set_speed_with_limits_in_the_wrong_order() {
    let fan = fan(SpeedCurve::Linear, 50, 80, 2000, 1000);
    assert_eq!(fan.set_speed(1500).output, "2000");
    assert_eq!(fan.set_speed(2500).output, "1000");
}

#[test]
fn computed_speeds_are_written_unchanged() {
    let fan = fan(SpeedCurve::Exponential, 50, 80, 1000, 2000);
    for temp in 0..=255u8 {
        let s = speed(&fan, temp);
        assert_eq!(fan.set_speed(s).output.parse::<u32>(), Ok(s));
    }
}

#[test]
fn set_manual_writes_one_or_zero() {
    let fan = fan(SpeedCurve::Linear, 50, 80, 1000, 2000);
    assert_eq!(fan.set_manual(true), "1");
    assert_eq!(fan.set_manual(false), "0");
}

#[test]
fn new_reads_the_limits() {
    let config = fan(SpeedCurve::Linear, 50, 80, 0, 0).config;
    let made = FanController::new(" 1299\n", "6199 \n", config).unwrap();
    assert_eq!(made, fan(SpeedCurve::Linear, 50, 80, 1299, 6199));
}

#[test]
fn new_reports_the_first_bad_limit() {
    let config = fan(SpeedCurve::Linear, 50, 80, 0, 0).config;
    assert_eq!(
        FanController::new("x", "y", config),
        Err(Error::MinSpeedParse(ParseError::InvalidDigit))
    );
    assert_eq!(
        FanController::new("\n", "1", config),
        Err(Error::MinSpeedParse(ParseError::Empty))
    );
    assert_eq!(
        FanController::new("1", "4294967296", config),
        Err(Error::MaxSpeedParse(ParseError::PosOverflow))
    );
}

#[test]
fn white_space_before_a_limit() {
    assert_eq!(parse_min_speed("\t 1200 \n"), Ok(1200));
    assert_eq!(
        parse_max_speed(" 1200\n"),
        Err(Error::MaxSpeedParse(ParseError::InvalidDigit))
    );
    assert_eq!(
        parse_max_speed(" \n"),
        Err(Error::MaxSpeedParse(ParseError::Empty))
    );
}
