[package]
name = "axum-resource"
version = "0.1.0"
edition = "2021"
publish = false

[dependencies]
axum = { version = "=0.5.17", default-features = false, features = ["http1"] }
matchit = "=0.5.0"
tower-service = "=0.3.3"

[dev-dependencies]
tokio = { version = "=1.54.1", features = ["rt"] }
tower = { version = "=0.4.13", features = ["util"] }
hyper = "=0.14.32"
