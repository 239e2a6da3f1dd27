[package]
name = "warp_ssh_manager"
version = "0.1.0"
edition = "2021"
publish = false

[dependencies]
chrono = { version = "0.4", default-features = false, features = ["std", "clock"] }
uuid = { version = "1", features = ["v4"] }
shell-escape = "0.1"
dirs = "5"
log = "0.4"
anyhow = "1"
diesel = { version = "2", default-features = false, features = ["sqlite"] }
tokio = { version = "1", features = ["rt", "time", "process", "io-util", "macros"] }
futures-lite = "2"
instant = "0.1"
zeroize = "1"
serde = { version = "1", features = ["derive"] }
serde_json = "1"

[dev-dependencies]
tempfile = "3"
