//! A small management layer over the Android Debug Bridge (adb) command-line
//! tool. The library keeps an in-memory registry of device records keyed by
//! serial and parses the text table printed by `adb devices -l` into those
//! records. Spawning the external `adb` process is left to the surrounding
//! application; the library only parses its output and maintains the registry.

pub mod adbmanager;
pub mod device;
pub mod text;

pub use adbmanager::AdbManager;
pub use device::Device;
pub use device::DeviceStatus;
pub use device::ParseError;
