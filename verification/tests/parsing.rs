use adb_manager::device::DeviceStatus;
use adb_manager::device::ParseError;
use adb_manager::adbmanager::parse_devices_output;

const HEADER: &str = "List of devices attached\n";

#[test]
fn one_networked_device() {
    let output = format!(
        "{}192.168.1.31:5555      device product:uzw4010tim model:TIM_BOX device:uzw4010tim transport_id:1\n",
        HEADER
    );
    let devices = parse_devices_output(&output).unwrap();
    assert_eq!(devices.len(), 1);
    assert_eq!(devices[0].serial, "192.168.1.31:5555");
    assert!(matches!(devices[0].status, DeviceStatus::Device));
    assert_eq!(devices[0].transport_id, Some(1));
}

#[test]
fn several_devices_in_order() {
    let output = format!(
        "{}emulator-5554 device product:sdk model:sdk device:generic transport_id:3\nAB12CD34 unauthorized usb:1-2 transport_id:7\n10.0.0.9:5555 offline transport_id:12\n",
        HEADER
    );
    let devices = parse_devices_output(&output).unwrap();
    assert_eq!(devices.len(), 3);
    assert_eq!(devices[0].serial, "emulator-5554");
    assert!(matches!(devices[0].status, DeviceStatus::Device));
    assert_eq!(devices[0].transport_id, Some(3));
    assert_eq!(devices[1].serial, "AB12CD34");
    assert!(matches!(devices[1].status, DeviceStatus::Unauthorized));
    assert_eq!(devices[1].transport_id, Some(7));
    assert_eq!(devices[2].serial, "10.0.0.9:5555");
    assert!(matches!(devices[2].status, DeviceStatus::Offline));
    assert_eq!(devices[2].transport_id, Some(12));
}

#[test]
fn empty_table() {
    let output = String::from(HEADER);
    let devices = parse_devices_output(&output).unwrap();
    assert_eq!(devices.len(), 0);
}

#[test]
fn blank_lines_are_skipped() {
    let output = format!("{}\nserialx device transport_id:2\n\n", HEADER);
    let devices = parse_devices_output(&output).unwrap();
    assert_eq!(devices.len(), 1);
    assert_eq!(devices[0].serial, "serialx");
}

#[test]
fn duplicate_serial_keeps_first() {
    let output = format!(
        "{}dup device transport_id:1\ndup offline transport_id:9\n",
        HEADER
    );
    let devices = parse_devices_output(&output).unwrap();
    assert_eq!(devices.len(), 1);
    assert!(matches!(devices[0].status, DeviceStatus::Device));
    assert_eq!(devices[0].transport_id, Some(1));
}

#[test]
fn crlf_line_endings() {
    let output = format!("{}serialy device transport_id:4\r\n", HEADER);
    let devices = parse_devices_output(&output).unwrap();
    assert_eq!(devices.len(), 1);
    assert_eq!(devices[0].serial, "serialy");
    assert_eq!(devices[0].transport_id, Some(4));
}

#[test]
fn text_before_header_is_ignored() {
    let output = format!("* daemon started successfully\n{}s1 device transport_id:5\n", HEADER);
    let devices = parse_devices_output(&output).unwrap();
    assert_eq!(devices.len(), 1);
    assert_eq!(devices[0].serial, "s1");
}

#[test]
fn missing_header() {
    let err = parse_devices_output("no table here\n").unwrap_err();
    assert_eq!(err, ParseError::MissingHeader);
}

#[test]
fn whitespace_only_line() {
    let output = format!("{}   \n", HEADER);
    let err = parse_devices_output(&output).unwrap_err();
    assert_eq!(err, ParseError::MissingSerial);
}

#[test]
fn line_with_only_serial() {
    let output = format!("{}lonely\n", HEADER);
    let err = parse_devices_output(&output).unwrap_err();
    assert_eq!(err, ParseError::MissingStatus);
}

#[test]
fn unknown_status_field() {
    let output = format!("{}s1 sideloading transport_id:1\n", HEADER);
    let err = parse_devices_output(&output).unwrap_err();
    assert_eq!(err, ParseError::UnknownStatus);
}

#[test]
fn last_field_without_colon() {
    let output = format!("{}s1 device\n", HEADER);
    let err = parse_devices_output(&output).unwrap_err();
    assert_eq!(err, ParseError::MissingTransportId);
}

#[test]
fn transport_id_not_a_number() {
    let output = format!("{}s1 device transport_id:abc\n", HEADER);
    let err = parse_devices_output(&output).unwrap_err();
    assert_eq!(err, ParseError::InvalidTransportId);
}

#[test]
fn transport_id_too_large() {
    let output = format!("{}s1 device transport_id:65536\n", HEADER);
    let err = parse_devices_output(&output).unwrap_err();
    assert_eq!(err, ParseError::InvalidTransportId);
}

#[test]
fn transport_id_at_the_limit() {
    let output = format!("{}s1 device transport_id:65535\n", HEADER);
    let devices = parse_devices_output(&output).unwrap();
    assert_eq!(devices[0].transport_id, Some(65535));
}

#[test]
fn transport_id_empty_after_colon() {
    let output = format!("{}s1 device transport_id:\n", HEADER);
    let err = parse_devices_output(&output).unwrap_err();
    assert_eq!(err, ParseError::InvalidTransportId);
}

#[test]
fn first_colon_splits_last_field() {
    let output = format!("{}s1 device usb:1-2 transport:id:bad\n", HEADER);
    let err = parse_devices_output(&output).unwrap_err();
    assert_eq!(err, ParseError::InvalidTransportId);
}

#[test]
fn two_fields_take_status_as_last() {
    let output = format!("{}s1 device:9\n", HEADER);
    let err = parse_devices_output(&output).unwrap_err();
    assert_eq!(err, ParseError::UnknownStatus);
}

#[test]
fn error_reports_first_bad_line() {
    let output = format!(
        "{}good device transport_id:1\nbad sideloading transport_id:2\nugly device transport_id:nope\n",
        HEADER
    );
    let err = parse_devices_output(&output).unwrap_err();
    assert_eq!(err, ParseError::UnknownStatus);
}

#[test]
fn tabs_separate_fields() {
    let output = format!("{}s1\tdevice\ttransport_id:8\n", HEADER);
    let devices = parse_devices_output(&output).unwrap();
    assert_eq!(devices.len(), 1);
    assert_eq!(devices[0].transport_id, Some(8));
}
