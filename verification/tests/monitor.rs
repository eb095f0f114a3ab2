use t2fand::monitor::{
    Cycle, TemperatureMonitor, RESPONSIVE_SLEEP_MILLIS, STABLE_TEMP_PADDING_COUNT,
    STABLE_TEMP_SLEEP_MILLIS, TEMP_BUFFER_SIZE,
};

#[test]
fn mean_is_rounded_down() {
    let mut monitor = TemperatureMonitor::new();
    assert_eq!(monitor.update_temperature_history(50), 50);
    assert_eq!(monitor.update_temperature_history(51), 50);
    assert_eq!(monitor.update_temperature_history(52), 51);
    assert_eq!(monitor.update_temperature_history(255), 102);
}

#[test]
fn history_drops_the_oldest_reading() {
    let mut monitor = TemperatureMonitor::new();
    assert_eq!(TEMP_BUFFER_SIZE, 50);
    assert_eq!(monitor.update_temperature_history(255), 255);
    for i in 1..50u16 {
        assert_eq!(monitor.update_temperature_history(0), 255 / (i + 1));
    }
    assert_eq!(monitor.update_temperature_history(0), 0);
}

#[test]
fn history_keeps_the_last_readings_in_order() {
    let mut monitor = TemperatureMonitor::new();
    let mut all: Vec<u8> = Vec::new();
    let mut t: u32 = 7;
    for _ in 0..300 {
        t = (t * 31 + 11) % 256;
        all.push(t as u8);
        let from = all.len().saturating_sub(50);
        let last = &all[from..];
        let sum: u32 = last.iter().map(|&x| x as u32).sum();
        assert_eq!(
            monitor.update_temperature_history(t as u8) as u32,
            sum / last.len() as u32
        );
    }
}

#[test]
fn hottest_history_does_not_overflow() {
    let mut monitor = TemperatureMonitor::new();
    for _ in 0..120 {
        assert_eq!(monitor.update_temperature_history(255), 255);
    }
}

#[test]
fn stable_means_the_last_mean() {
    let mut monitor = TemperatureMonitor::new();
    assert!(monitor.is_temperature_stable(0));
    assert!(!monitor.is_temperature_stable(40));
    monitor.update_last_mean_temp(40);
    assert!(monitor.is_temperature_stable(40));
    assert!(!monitor.is_temperature_stable(0));
}

#[test]
fn padding_weighs_as_much_as_short_cycles() {
    assert_eq!(
        STABLE_TEMP_SLEEP_MILLIS / RESPONSIVE_SLEEP_MILLIS,
        STABLE_TEMP_PADDING_COUNT as u64 + 1
    );
    for before in 0..60u8 {
        let mut padded = TemperatureMonitor::new();
        let mut pushed = TemperatureMonitor::new();
        for t in 0..before {
            padded.update_temperature_history(3 * t);
            pushed.update_temperature_history(3 * t);
        }
        padded.update_temperature_history(200);
        padded.pad_temperature_history_for_stable_period(200);
        for _ in 0..10 {
            pushed.update_temperature_history(200);
        }
        for t in 0..60u8 {
            assert_eq!(
                padded.update_temperature_history(t),
                pushed.update_temperature_history(t)
            );
        }
    }
}

#[test]
fn sleep_depends_on_stability() {
    let mut monitor = TemperatureMonitor::new();
    assert_eq!(monitor.handle_sleep_cycle(60, 60, false), 100);
    assert!(monitor.is_temperature_stable(60));
    assert_eq!(monitor.handle_sleep_cycle(80, 70, true), 1000);
    assert!(monitor.is_temperature_stable(60));
    // Nine readings of 80 and one of 30.
    assert_eq!(monitor.update_temperature_history(30), 75);
}

#[test]
fn cycles_set_the_fans_when_the_mean_changes() {
    let mut monitor = TemperatureMonitor::new();
    assert_eq!(
        monitor.cycle(60),
        Cycle { mean_temp: 60, fan_temp: Some(60), sleep_millis: 100 }
    );
    assert_eq!(
        monitor.cycle(60),
        Cycle { mean_temp: 60, fan_temp: None, sleep_millis: 1000 }
    );
    // Eleven readings of 60 and one of 84.
    assert_eq!(
        monitor.cycle(84),
        Cycle { mean_temp: 62, fan_temp: Some(62), sleep_millis: 100 }
    );
}

#[test]
fn a_start_at_zero_degrees_is_stable() {
    let mut monitor = TemperatureMonitor::new();
    assert_eq!(
        monitor.cycle(0),
        Cycle { mean_temp: 0, fan_temp: None, sleep_millis: 1000 }
    );
}

#[test]
fn steady_temperature_settles() {
    let mut monitor = TemperatureMonitor::new();
    for t in 0..90u8 {
        monitor.cycle(t);
    }
    for _ in 0..50 {
        monitor.cycle(77);
    }
    assert!(monitor.is_temperature_stable(77));
    assert_eq!(
        monitor.cycle(77),
        Cycle { mean_temp: 77, fan_temp: None, sleep_millis: 1000 }
    );
}

#[test]
fn fans_follow_the_mean() {
    let mut monitor = TemperatureMonitor::new();
    let mut fans: u16 = 0;
    let mut t: u32 = 1;
    for _ in 0..500 {
        t = (t * 17 + 5) % 256;
        let cycle = monitor.cycle(t as u8);
        if let Some(fan_temp) = cycle.fan_temp {
            assert!(fan_temp as u16 != fans);
            fans = fan_temp as u16;
        }
        assert_eq!(fans, cycle.mean_temp);
        assert!(monitor.is_temperature_stable(fans));
    }
}
