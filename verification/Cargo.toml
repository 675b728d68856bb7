[package]
name = "agfs"
version = "0.1.0"
edition = "2021"
publish = false

[dependencies]
anyhow = "1"
clap = { version = "4", features = ["derive"] }
colored = "*"
libc = "0.2"
nix = { version = "*", features = ["ioctl", "mount", "sched", "signal", "user", "fs"] }
rmcp = { version = "*", features = ["server", "transport-io", "elicitation", "macros", "schemars"] }
serde = { version = "1", features = ["derive"] }
similar = "2"
systemd = { version = "*", default-features = false, features = ["journal"] }
toml = "*"

[dev-dependencies]
serde_json = "1"
tempfile = "3"
