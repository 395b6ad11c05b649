[package]
name = "nixie"
version = "0.1.0"
edition = "2021"
publish = false

[dependencies]
hashlink = "=0.12.2"
itertools = "=0.15.0"
serde_json = "=1.0.154"
serde = { version = "=1.0.229", features = ["derive"] }
clap = { version = "=4.6.7", features = ["derive"] }
clap_complete = "=4.6.11"
colored = "=3.1.1"
chrono = "=0.4.45"
thiserror = "=2.0.21"
tracing = "=0.1.44"
tracing-subscriber = { version = "=0.3.23", features = ["env-filter"] }
tokio = { version = "=1.54.1", features = ["full"] }
futures = "=0.3.34"
tarpc = { version = "=0.38.0", features = ["full"] }
tokio-serde = { version = "=0.9.0", features = ["cbor"] }
mimalloc = "=0.1.52"
nvml-wrapper = "=0.13.0"
cudarc = { version = "=0.19.10", default-features = false, features = ["std", "driver", "cuda-12060", "dynamic-loading"] }
flume = "=0.12.0"
toml = "*"
nix = "=0.31.3"
syscalls = "=0.8.1"
windows = { version = "0.58", features = ["Win32_Foundation", "Win32_Security", "Win32_System_Memory", "Win32_System_Threading", "Win32_System_LibraryLoader", "Win32_System_SystemServices"] }
