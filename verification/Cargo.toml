[package]
name = "xmmrpc"
version = "0.1.0"
edition = "2021"
publish = false

[dependencies]
sha2 = "0.10"
thiserror = "2"
serde = { version = "1", features = ["derive"] }
toml = "*"
palc = "*"
tokio = { version = "1", features = ["rt", "net", "time"] }
rtnetlink = "*"
futures-util = "0.3"
libc = "0.2"
tracing = "0.1"
tracing-subscriber = { version = "0.3", features = ["env-filter", "fmt"] }
