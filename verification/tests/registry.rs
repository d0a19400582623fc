use adb_manager::AdbManager;
use adb_manager::Device;
use adb_manager::DeviceStatus;
use adb_manager::ParseError;

const HEADER: &str = "List of devices attached\n";

#[test]
fn new_manager_is_empty() {
    let mgr = AdbManager::new();
    assert_eq!(mgr.devices().len(), 0);
}

#[test]
fn resync_fills_the_registry() {
    let mut mgr = AdbManager::new();
    let output = format!(
        "{}a device transport_id:1\nb offline transport_id:2\n",
        HEADER
    );
    mgr.resync_from_output(&output).unwrap();
    let devices = mgr.devices();
    assert_eq!(devices.len(), 2);
    assert_eq!(devices[0].serial, "a");
    assert_eq!(devices[1].serial, "b");
}

#[test]
fn resync_replaces_previous_contents() {
    let mut mgr = AdbManager::new();
    let first = format!("{}a device transport_id:1\n", HEADER);
    mgr.resync_from_output(&first).unwrap();
    let second = format!("{}b device transport_id:2\n", HEADER);
    mgr.resync_from_output(&second).unwrap();
    let devices = mgr.devices();
    assert_eq!(devices.len(), 1);
    assert_eq!(devices[0].serial, "b");
}

#[test]
fn failed_resync_leaves_registry_unchanged() {
    let mut mgr = AdbManager::new();
    let good = format!("{}a device transport_id:1\n", HEADER);
    mgr.resync_from_output(&good).unwrap();
    let bad = format!("{}b sideloading transport_id:2\n", HEADER);
    let err = mgr.resync_from_output(&bad).unwrap_err();
    assert_eq!(err, ParseError::UnknownStatus);
    let devices = mgr.devices();
    assert_eq!(devices.len(), 1);
    assert_eq!(devices[0].serial, "a");
}

#[test]
fn insert_appends_new_serial() {
    let mut mgr = AdbManager::new();
    mgr.insert_device(Device::with_status("10.0.0.2:5555", DeviceStatus::Device));
    let devices = mgr.devices();
    assert_eq!(devices.len(), 1);
    assert_eq!(devices[0].serial, "10.0.0.2:5555");
    assert!(matches!(devices[0].status, DeviceStatus::Device));
    assert_eq!(devices[0].transport_id, None);
}

#[test]
fn insert_replaces_same_serial() {
    let mut mgr = AdbManager::new();
    mgr.insert_device(Device::with_status("x", DeviceStatus::Offline));
    mgr.insert_device(Device::with_status("x", DeviceStatus::Device));
    let devices = mgr.devices();
    assert_eq!(devices.len(), 1);
    assert!(matches!(devices[0].status, DeviceStatus::Device));
}

#[test]
fn remove_drops_only_the_named_serial() {
    let mut mgr = AdbManager::new();
    mgr.insert_device(Device::with_status("a", DeviceStatus::Device));
    mgr.insert_device(Device::with_status("b", DeviceStatus::Device));
    assert!(mgr.remove_device("a"));
    let devices = mgr.devices();
    assert_eq!(devices.len(), 1);
    assert_eq!(devices[0].serial, "b");
}

#[test]
fn remove_of_absent_serial_reports_false() {
    let mut mgr = AdbManager::new();
    mgr.insert_device(Device::with_status("a", DeviceStatus::Device));
    assert!(!mgr.remove_device("zzz"));
    assert_eq!(mgr.devices().len(), 1);
}

#[test]
fn clear_empties_the_registry() {
    let mut mgr = AdbManager::new();
    mgr.insert_device(Device::with_status("a", DeviceStatus::Device));
    mgr.insert_device(Device::with_status("b", DeviceStatus::Device));
    mgr.clear_devices();
    assert_eq!(mgr.devices().len(), 0);
}

#[test]
fn status_parses_the_three_words() {
    assert!(matches!(DeviceStatus::parse("device"), Ok(DeviceStatus::Device)));
    assert!(matches!(DeviceStatus::parse("offline"), Ok(DeviceStatus::Offline)));
    assert!(matches!(
        DeviceStatus::parse("unauthorized"),
        Ok(DeviceStatus::Unauthorized)
    ));
    assert!(matches!(
        DeviceStatus::parse("recovery"),
        Err(ParseError::UnknownStatus)
    ));
    assert!(matches!(
        DeviceStatus::parse("Device"),
        Err(ParseError::UnknownStatus)
    ));
    assert!(matches!(
        "device".parse::<DeviceStatus>(),
        Ok(DeviceStatus::Device)
    ));
}

#[test]
fn with_status_fills_the_record() {
    let d = Device::with_status("192.168.1.7:5555", DeviceStatus::Unauthorized);
    assert_eq!(d.serial, "192.168.1.7:5555");
    assert!(matches!(d.status, DeviceStatus::Unauthorized));
    assert_eq!(d.transport_id, None);
}
