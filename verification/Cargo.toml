[package]
name = "bzmm"
version = "0.1.0"
edition = "2021"
publish = false

[dependencies]
sha2 = "*"
serde = { version = "*", features = ["derive"] }
serde_json = "*"
quick-xml = { version = "*", features = ["serialize"] }
reqwest = { version = "*", default-features = false, features = ["rustls-tls", "stream"] }
tokio = { version = "*", features = ["rt-multi-thread", "macros", "fs", "io-util", "sync", "time"] }
tokio-util = "*"
futures-util = "*"
zip = { version = "*", default-features = false, features = ["deflate"] }
directories = "*"
