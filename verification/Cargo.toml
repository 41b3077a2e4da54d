[package]
name = "lstree"
version = "0.1.0"
edition = "2021"
publish = false

[dependencies]
opendal = { version = "=0.59.3", default-features = false, features = ["services-fs", "layers-retry"] }
tokio = { version = "=1.53.2", default-features = false, features = ["rt"] }
