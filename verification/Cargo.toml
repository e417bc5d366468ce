[package]
name = "shadow_rs"
version = "0.1.0"
edition = "2021"
publish = false

[dependencies]
anyhow = "1"
clap = { version = "4", features = ["derive"] }
libc = "0.2"
log = "0.4"
nix = { version = "0.30", features = ["feature", "personality", "process", "resource", "sched", "signal", "user"] }
once_cell = "1"
rand = "0.9"
rand_xoshiro = "0.7"
serde = { version = "1", features = ["derive"] }
serde_json = "1"
serde_yaml = "0.9"
signal-hook = "0.3"
tempfile = "3"
thiserror = "2"
which = "*"
