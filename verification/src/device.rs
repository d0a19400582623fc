//! Device records: the connection status reported by adb, the record itself
//! (serial, status, transport id), and the errors that parsing adb's output
//! can report.

use vstd::prelude::*;

use crate::text::str_eq;

verus! {

/// The connection status adb reports for a device.
#[derive(Clone, Copy, PartialEq, Eq, Structural, Debug)]
pub enum DeviceStatus {
    Offline,
    Device,
    Unauthorized,
}

/// Why a piece of `adb devices -l` output was rejected.
#[derive(Clone, Copy, PartialEq, Eq, Structural, Debug)]
pub enum ParseError {
    /// The output does not contain the `List of devices attached` header line.
    MissingHeader,
    /// A device line is non-empty but holds no field at all.
    MissingSerial,
    /// A device line holds a serial but no status field.
    MissingStatus,
    /// The status field is not one of `device`, `offline`, `unauthorized`.
    UnknownStatus,
    /// The last field of a device line has no `:` separator.
    MissingTransportId,
    /// What follows the `:` of the last field is not a decimal `u16`.
    InvalidTransportId,
}

/// One connected device as adb lists it.
#[derive(Clone, Debug)]
pub struct Device {
    pub serial: String,
    pub status: DeviceStatus,
    pub transport_id: Option<u16>,
}

/// The mathematical content of a `Device`: its serial as a character
/// sequence, its status and its transport id.
pub struct DeviceView {
    pub serial: Seq<char>,
    pub status: DeviceStatus,
    pub transport_id: Option<u16>,
}

impl View for Device {
    type V = DeviceView;

    open spec fn view(&self) -> DeviceView {
        DeviceView { serial: self.serial@, status: self.status, transport_id: self.transport_id }
    }
}

/// The status a status field denotes, if it is one of the three adb prints.
pub open spec fn spec_status_of(s: Seq<char>) -> Option<DeviceStatus> {
    if s == "device"@ {
        Some(DeviceStatus::Device)
    } else if s == "offline"@ {
        Some(DeviceStatus::Offline)
    } else if s == "unauthorized"@ {
        Some(DeviceStatus::Unauthorized)
    } else {
        None
    }
}

impl DeviceStatus {
    /// Parses a status field of `adb devices -l` output.
    pub fn parse(s: &str) -> (r: Result<DeviceStatus, ParseError>)
        ensures
            r == match spec_status_of(s@) {
                Some(st) => Ok::<DeviceStatus, ParseError>(st),
                None => Err::<DeviceStatus, ParseError>(ParseError::UnknownStatus),
            },
    {
        if str_eq(s, "device") {
            Ok(DeviceStatus::Device)
        } else if str_eq(s, "offline") {
            Ok(DeviceStatus::Offline)
        } else if str_eq(s, "unauthorized") {
            Ok(DeviceStatus::Unauthorized)
        } else {
            Err(ParseError::UnknownStatus)
        }
    }
}

impl core::str::FromStr for DeviceStatus {
    type Err = ParseError;

    fn from_str(s: &str) -> Result<DeviceStatus, ParseError> {
        DeviceStatus::parse(s)
    }
}

impl Device {
    /// A record for a device reached directly by its address: the serial is
    /// the address, and no transport id is known yet.
    pub fn with_status(serial: &str, status: DeviceStatus) -> (d: Device)
        ensures
            d@.serial == serial@,
            d@.status == status,
            d@.transport_id is None,
    {
        Device { serial: serial.to_owned(), status, transport_id: None }
    }
}

} // verus!
