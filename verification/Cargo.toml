[package]
name = "fdrive"
version = "0.1.0"
edition = "2021"
publish = false

[dependencies]
bytes = "=1.12.1"
clap = { version = "=4.6.7", features = ["derive", "env"] }
env_logger = "=0.11.11"
fast_rsync = "=0.2.0"
fuser = { version = "=0.18.0", default-features = false }
futures-core = "=0.3.34"
futures-util = "=0.3.34"
httpdate = "=1.0.3"
libc = "=0.2.191"
log = "=0.4.35"
regex = "=1.13.1"
reqwest = { version = "=0.12.28", default-features = false, features = ["stream", "json", "rustls-tls"] }
rusqlite = { version = "=0.41.1", features = ["bundled"] }
serde = { version = "=1.0.229", features = ["derive"] }
serde_json = "=1.0.154"
sha2 = "=0.10.9"
thiserror = "=2.0.21"
tokio = { version = "=1.54.1", features = ["rt-multi-thread", "sync", "time", "macros", "fs", "io-util"] }
tokio-util = { version = "=0.7.20", features = ["io"] }
toml = "=1.1.8"
url = "=2.5.8"
