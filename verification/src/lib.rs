//! Verified protocol and decision logic for controlling Soundcore Liberty 5
//! earbuds over the Soundcore v1 RFCOMM framing.

pub mod error;
pub mod frame;
pub mod text;
pub mod hexcode;
pub mod profile;
pub mod device;
pub mod finder;
pub mod gatt;
pub mod cli;

pub use device::{AncMode, BatteryStatus, DeviceInfo};
pub use error::BleError;
pub use finder::{DiscoveredDevice, LibertyDeviceInfo};
pub use frame::Frame;
pub use profile::{CommandProfile, ProfileCommand};
