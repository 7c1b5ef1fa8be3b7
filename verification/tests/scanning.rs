use hwmon_report::parse::TempError;
use hwmon_report::report::render_report;
use hwmon_report::scan::{get_devices, is_channel_file, DeviceScan};

fn texts(v: &[&str]) -> Vec<String> {
    v.iter().map(|s| s.to_string()).collect()
}

fn scan(dir: &str, name_text: &str, channels: &[&str]) -> DeviceScan {
    DeviceScan {
        dir: dir.to_string(),
        name_text: name_text.to_string(),
        channel_texts: texts(channels),
    }
}

#[test]
fn recognizes_channel_file_names() {
    assert!(is_channel_file("temp1_input"));
    assert!(is_channel_file("temp2_input"));
    assert!(is_channel_file("temp10_input"));
    assert!(is_channel_file("temp01_input"));
}

#[test]
fn rejects_other_file_names() {
    assert!(!is_channel_file("name"));
    assert!(!is_channel_file("temp_input"));
    assert!(!is_channel_file("temp0_input"));
    assert!(!is_channel_file("temp00_input"));
    assert!(!is_channel_file("tempx_input"));
    assert!(!is_channel_file("temp1_inpu"));
    assert!(!is_channel_file("temp1_label"));
    assert!(!is_channel_file("atemp1_input"));
    assert!(!is_channel_file("temp1_inputx"));
    assert!(!is_channel_file(""));
}

#[test]
fn two_device_scan_renders_expected_report() {
    let scans = vec![
        scan("/sys/class/hwmon/hwmon0", "coretemp\n", &["45000\n", "47000\n"]),
        scan("/sys/class/hwmon/hwmon1", "acpitz\n", &[]),
    ];
    let devices = get_devices(&scans).unwrap();
    assert_eq!(devices.len(), 2);
    assert_eq!(devices[0].name, "coretemp");
    assert_eq!(devices[0].dir, "/sys/class/hwmon/hwmon0");
    assert_eq!(devices[0].temps, vec![45000, 47000]);
    assert_eq!(devices[1].name, "acpitz");
    assert_eq!(devices[1].temps.len(), 0);
    let report = render_report(&devices);
    assert_eq!(
        report,
        "Name: coretemp\nSensor0: 45\nSensor1: 47\nAvg temp: 46\n\nName: acpitz\nAvg temp: N/A\n"
    );
}

#[test]
fn malformed_channel_aborts_whole_run() {
    // the first device is fine, the second holds a non-numeric channel:
    // nothing is reported, not even the earlier valid device
    let scans = vec![
        scan("/sys/class/hwmon/hwmon0", "coretemp\n", &["45000\n"]),
        scan("/sys/class/hwmon/hwmon1", "acpitz\n", &["oops\n"]),
        scan("/sys/class/hwmon/hwmon2", "nvme\n", &["30000\n"]),
    ];
    match get_devices(&scans) {
        Err(e) => assert_eq!(e, TempError::NotANumber),
        Ok(_) => panic!("expected the run to abort"),
    }
}

#[test]
fn empty_scan_list_renders_empty_report() {
    let devices = get_devices(&Vec::new()).unwrap();
    assert_eq!(devices.len(), 0);
    assert_eq!(render_report(&devices), "");
}

#[test]
fn out_of_range_channel_reports_range_error() {
    let scans = vec![scan(
        "/sys/class/hwmon/hwmon0",
        "coretemp\n",
        &["99999999999999999999\n"],
    )];
    match get_devices(&scans) {
        Err(e) => assert_eq!(e, TempError::OutOfRange),
        Ok(_) => panic!("expected the run to abort"),
    }
}
