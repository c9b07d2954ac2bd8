[package]
name = "powerbench"
version = "0.1.0"
edition = "2021"
publish = false

[dependencies]
anyhow = "1"
clap = { version = "4", features = ["derive"] }
ctrlc = { version = "3", features = ["termination"] }
libc = "0.2"
ppk2 = { version = "*", default-features = false }
serde = { version = "1", features = ["derive"] }
serde_json = "1"
serialport = { version = "4", default-features = false }
statrs = { version = "*", default-features = false }
thiserror = "2"
