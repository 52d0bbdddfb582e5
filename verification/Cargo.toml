[package]
name = "hf_mount"
version = "0.1.0"
edition = "2021"
publish = false

[dependencies]
aegis = { version = "=0.9.20", features = ["raf"] }
async-trait = "=0.1.92"
base64 = "=0.22.1"
bytes = "=1.12.1"
chrono = "=0.4.45"
clap = { version = "=4.6.7", features = ["derive", "env"] }
ct-codecs = "=1.1.8"
futures = "=0.3.34"
hctr2-rs = "=0.10.0"
hmac-sha256 = "=1.1.15"
libc = "=0.2.191"
reqwest = { version = "=0.13.5", features = ["json", "stream"] }
serde = { version = "=1.0.229", features = ["derive"] }
serde_json = "=1.0.154"
tokio = { version = "=1.54.1", features = ["full"] }
tracing = "=0.1.44"
tracing-subscriber = { version = "=0.3.23", features = ["env-filter", "json"] }
uuid = { version = "=1.29.0", features = ["v4"] }
zeroize = { version = "=1.9.1", features = ["derive"] }
xet-client = "=1.8.0"
xet-data = "=1.8.0"
xet-runtime = "=1.8.0"

[dev-dependencies]
tempfile = "=3.27.0"
