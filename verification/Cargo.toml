[package]
name = "kindlefill_core"
version = "0.1.0"
edition = "2021"
publish = false

[dependencies]
anyhow = "1"
bytes = "=1.12.1"
clap = { version = "4", features = ["derive"] }
futures = "0.3"
libc = "0.2"
mtp-rs = "=0.30.0"
serde = { version = "1", features = ["derive"] }
tokio = { version = "1", features = ["full"] }
windows = { version = "0.62", features = ["Win32_Devices_PortableDevices", "Win32_Foundation", "Win32_Storage_FileSystem", "Win32_System_Com"] }
