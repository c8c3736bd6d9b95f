[package]
name = "jftermd"
version = "0.1.0"
edition = "2021"
publish = false

[dependencies]
vte = "0.15.0"
serde = { version = "1", features = ["derive"] }
serde_json = "1"
libc = "0.2"
nix = { version = "0.31", features = ["term", "process", "signal", "ioctl", "fs"] }
tokio = { version = "1", features = ["rt-multi-thread", "net", "io-util", "sync", "time", "signal", "macros"] }
tracing = "0.1"
tracing-subscriber = { version = "0.3", features = ["fmt", "env-filter"] }

[dev-dependencies]
vt100 = "0.16.2"
tempfile = "3"
