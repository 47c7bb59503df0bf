[package]
name = "ripdis"
version = "0.1.0"
edition = "2021"
publish = false

[dependencies]
serde_json = "1"
gethostname = "*"
crossbeam = "0.8"
clap = "2"
tracing = "0.1"
tracing-subscriber = { version = "0.3", features = ["env-filter"] }
tracing-error = "0.2"
tracing-journald = "*"
tui = "0.19"
crossterm = "0.25"
terminal-spinners = "*"
