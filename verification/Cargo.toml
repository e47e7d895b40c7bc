[package]
name = "crius"
version = "0.1.0"
edition = "2021"
publish = false

[dependencies]
tokio = { version = "1", features = ["rt-multi-thread", "macros", "sync", "fs"] }
oci-distribution = { version = "*", default-features = false, features = ["rustls-tls"] }

[dev-dependencies]
serde_json = "1"
