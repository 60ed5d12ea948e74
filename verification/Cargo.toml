[package]
name = "sshagmux"
version = "0.1.0"
edition = "2021"
publish = false

[dependencies]
indexmap = { version = "*", features = ["std"] }
tokio = { version = "*", features = ["net", "rt", "time"] }
tokio-util = { version = "*", features = ["codec"] }
futures = "*"
clap = { version = "*", features = ["derive"] }
eyre = "*"
color-eyre = "*"
ctrlc = "*"
listenfd = "*"
tracing = "*"
tracing-subscriber = { version = "*", features = ["env-filter"] }
tracing-error = "*"
bytes = "*"
