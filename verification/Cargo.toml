[package]
name = "darpi"
version = "0.1.0"
edition = "2021"
publish = false

[dependencies]
hyper = { version = "0.14", features = ["server", "http1", "tcp"] }
tokio = { version = "1", features = ["rt-multi-thread", "macros", "net", "sync", "time"] }
http = "0.2"
futures = "0.3"
futures-util = "0.3"
bytes = "1"
serde = { version = "1", features = ["derive"] }
serde_json = "1"
serde_urlencoded = "0.7"
async-compression = { version = "0.4", features = ["futures-io", "brotli", "deflate", "gzip"] }
