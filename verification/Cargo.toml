[package]
name = "soundcore_lib5_core"
version = "0.1.0"
edition = "2021"
publish = false

[dependencies]
hex = "0.4"
uuid = "1"
serde = { version = "1", features = ["derive"] }
serde_json = "1"
thiserror = "1"
tokio = { version = "1", features = ["rt", "rt-multi-thread", "macros", "time", "sync"] }
futures-util = "0.3"
clap = { version = "4", features = ["derive"] }
btleplug = "0.12"
windows = { version = "*", features = ["Foundation", "Foundation_Collections", "Devices_Bluetooth", "Devices_Bluetooth_Rfcomm", "Devices_Enumeration", "Networking", "Networking_Sockets", "Storage_Streams"] }
