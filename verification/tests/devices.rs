use hwmon_report::device::Device;
use hwmon_report::parse::TempError;

fn texts(v: &[&str]) -> Vec<String> {
    v.iter().map(|s| s.to_string()).collect()
}

#[test]
fn populates_readings_in_enumeration_order() {
    let mut dev = Device::new();
    let r = dev.init_data(&texts(&["20000\n", "30000\n", "40000\n"]), "coretemp\n");
    assert_eq!(r, Ok(()));
    assert_eq!(dev.temps, vec![20000, 30000, 40000]);
    assert_eq!(dev.name, "coretemp");
}

#[test]
fn average_of_three_readings_is_exact() {
    // readings of 20.0, 30.0 and 40.0 degrees average to exactly 30.0
    let mut dev = Device::new();
    dev.init_data(&texts(&["20000", "30000", "40000"]), "chip").unwrap();
    dev.calculate_avg();
    assert_eq!(dev.avg_temp, 30000);
    assert_eq!(dev.avg_display(), "30");
}

#[test]
fn average_of_single_reading_is_that_reading() {
    // a single reading of 21.5 degrees is its own average
    let mut dev = Device::new();
    dev.init_data(&texts(&["21500"]), "chip").unwrap();
    dev.calculate_avg();
    assert_eq!(dev.avg_temp, 21500);
    assert_eq!(dev.avg_display(), "21.5");
}

#[test]
fn average_of_no_readings_is_not_available() {
    let mut dev = Device::new();
    dev.init_data(&texts(&[]), "acpitz").unwrap();
    dev.calculate_avg();
    assert_eq!(dev.temps.len(), 0);
    assert_eq!(dev.avg_temp, 0);
    assert_eq!(dev.avg_display(), "N/A");
    assert_eq!(dev.show(), "Name: acpitz\nAvg temp: N/A\n");
}

#[test]
fn round_trip_millidegree_texts() {
    // "21500" reads as 21.5 degrees; "0" reads as 0.0 degrees, whose display
    // cannot be told apart from the no-sensor placeholder: the zero average
    // is the sentinel, a known ambiguity that is kept, not fixed.
    let mut dev = Device::new();
    dev.init_data(&texts(&["21500"]), "chip").unwrap();
    assert_eq!(dev.temps, vec![21500]);
    assert_eq!(dev.show().contains("Sensor0: 21.5"), true);

    let mut zero = Device::new();
    zero.init_data(&texts(&["0"]), "chip").unwrap();
    zero.calculate_avg();
    assert_eq!(zero.temps, vec![0]);
    assert_eq!(zero.avg_temp, 0);
    assert_eq!(zero.avg_display(), "N/A");
}

#[test]
fn first_unreadable_channel_reports_its_error() {
    let mut dev = Device::new();
    let r = dev.init_data(&texts(&["20000", "garbage", "40000"]), "chip");
    assert_eq!(r, Err(TempError::NotANumber));
    // nothing was stored
    assert_eq!(dev.temps.len(), 0);
    assert_eq!(dev.name, "");
}

#[test]
fn negative_readings_average_with_euclidean_quotient() {
    let mut dev = Device::new();
    dev.init_data(&texts(&["-500", "-600"]), "chip").unwrap();
    dev.calculate_avg();
    // Euclidean quotient of -1100 by 2
    assert_eq!(dev.avg_temp, -550);
    assert_eq!(dev.avg_display(), "-0.55");
}

#[test]
fn device_block_lists_readings_by_position() {
    let mut dev = Device::new();
    dev.init_data(&texts(&["45000", "47000"]), "coretemp").unwrap();
    dev.calculate_avg();
    assert_eq!(
        dev.show(),
        "Name: coretemp\nSensor0: 45\nSensor1: 47\nAvg temp: 46\n"
    );
}
