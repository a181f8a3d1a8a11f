[package]
name = "pi_natives"
version = "0.1.0"
edition = "2021"
publish = false

[dependencies]
anyhow = "=1.0.104"
ashpd = "0.11"
flume = "=0.11.1"
futures = "0.3"
libc = "=0.2.191"
rayon = "=1.12.0"
regex = "=1.13.1"
reis = { version = "0.5", features = ["tokio"] }
serde = { version = "=1.0.229", features = ["derive"] }
serde_json = "=1.0.154"
tokio = { version = "1", features = ["rt", "time"] }
x11rb = { version = "=0.13.2", features = ["xinput", "xtest"] }
xkeysym = "=0.2.1"
xxhash-rust = { version = "=0.8.19", features = ["xxh64"] }
zstd = "=0.13.4"
