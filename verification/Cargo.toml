[package]
name = "walkthrough"
version = "0.4.0"
edition = "2021"
publish = false

[dependencies]
async-stream = "0.3"
futures-core = "0.3"
once_cell = "1"
thiserror = "2"
tokio = { version = "1", features = ["fs", "rt"] }
windows-sys = { version = "0.59", features = ["Win32_Storage_FileSystem"] }
