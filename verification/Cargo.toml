[package]
name = "uart_dap"
version = "0.1.0"
edition = "2021"
publish = false

[dependencies]
bytes = "*"
clap = { version = "*", features = ["derive"] }
futures = "*"
serde = { version = "*", features = ["derive"] }
tokio = { version = "*", features = ["macros", "rt-multi-thread", "io-util", "io-std", "sync", "time"] }
tokio-serial = "*"
tokio-util = { version = "*", features = ["codec"] }
tracing = "*"
tracing-subscriber = "*"
