[package]
name = "scx_cohort"
version = "0.1.0"
edition = "2021"
publish = false

[dependencies]
anyhow = "1"
clap = { version = "4", features = ["derive"] }
crossbeam = "0.8"
ctrlc = "3"
globset = "0.4"
libbpf-rs = "*"
libc = "0.2"
log = "0.4"
scx_stats = "*"
scx_stats_derive = "*"
scx_utils = "*"
serde = { version = "1", features = ["derive"] }
simplelog = "0.12"
toml = "*"
zerocopy = { version = "0.8", features = ["derive"] }
