[package]
name = "dirkill"
version = "0.1.0"
edition = "2021"
publish = false

[dependencies]
anyhow = "1"
bytesize = "1"
chrono = "0.4"
clap = { version = "3", features = ["derive"] }
crossterm = "0.25"
dunce = "1"
parking_lot = "0.12"
strip-ansi-escapes = "0.1"
tracing = "0.1"
tracing-appender = "0.2"
tracing-subscriber = "0.3"
tui = "0.19"
walkdir = "2"
