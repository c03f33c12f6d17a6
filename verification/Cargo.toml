[package]
name = "rucompart"
version = "0.1.0"
edition = "2021"
publish = false

[dependencies]
eyre = "0.6"
futures = "0.3"
libc = "0.2"
netdev = "*"
serde = { version = "1", features = ["derive"] }
tarpc = { version = "0.37", features = ["serde-transport", "serde-transport-json", "tcp", "unix"] }
thiserror = "2"
tokio = { version = "1", features = ["macros", "net", "rt-multi-thread", "io-util"] }
