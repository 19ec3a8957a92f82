[package]
name = "utxo2webgraph"
version = "0.1.0"
edition = "2021"
publish = false

[dependencies]
itoa = "1"
rdst = "*"
rayon = "1"
chrono = { version = "0.4", default-features = false, features = ["std"] }
chrono-tz = { version = "*", default-features = false, features = ["std"] }
clap = { version = "4", default-features = false, features = ["std", "derive", "help", "usage", "error-context", "suggestions"] }
anyhow = "1"
log = "0.4"
env_logger = { version = "*", default-features = false }
jiff = { version = "*", default-features = false, features = ["std"] }
tempfile = { version = "3", default-features = false }
thiserror = "*"
dsi-progress-logger = "*"
dsi-bitstream = { version = "*", default-features = false, features = ["std"] }
