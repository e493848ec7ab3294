[package]
name = "kramer_core"
version = "0.4.0"
edition = "2021"
publish = false

[dependencies]
vampirc-uci = "*"
crossbeam = "*"
chrono = "*"
clap = { version = "*", features = ["derive"] }
tracing = "*"
tracing-subscriber = { version = "*", features = ["env-filter"] }
tracing-appender = "*"
directories = "*"
miette = "*"
open = "*"
