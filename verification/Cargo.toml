[package]
name = "massiveeq"
version = "0.3.0"
edition = "2021"
publish = false

[dependencies]
regex = "1"
serde = { version = "1", features = ["derive"] }
serde_json = "1"
uuid = { version = "1", features = ["v4"] }
dirs = "6"
tempfile = "3"
anyhow = "1"
tokio = { version = "1", features = ["rt-multi-thread", "macros", "process", "fs", "time", "signal", "sync"] }
zbus = "5"
futures-util = "0.3"
rustfft = "6"
fft-convolver = "*"
rtrb = "0.3"
bytemuck = "1"
ksni = "0.3"
