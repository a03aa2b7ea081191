[package]
name = "qingjian-audio"
version = "0.1.0"
edition = "2021"
publish = false

[dependencies]
objc2 = "0.6"
objc2-app-kit = "0.3"
objc2-avf-audio = "0.3"
objc2-foundation = "0.3"
reqwest = { version = "0.12", default-features = false, features = ["json", "rustls-tls"] }
serde_json = "1"
thiserror = "2"
tokio = { version = "1", features = ["rt"] }
tracing = "0.1"
zerocopy = { version = "0.8", features = ["derive"] }
