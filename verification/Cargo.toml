[package]
name = "ppv2_auth"
version = "0.13.0"
edition = "2021"
publish = false

[dependencies]
anyhow = "=1.0.104"
axum = "=0.8.9"
futures = "=0.3.34"
k8s-openapi = { version = "=0.26.1", features = ["latest"] }
kube = { version = "=2.0.1", features = ["runtime", "derive"] }
rustls = { version = "=0.23.46", default-features = false, features = ["ring", "std"] }
schemars = "=1.2.3"
serde = { version = "=1.0.229", features = ["derive"] }
serde_json = { version = "=1.0.154", features = ["raw_value"] }
sha2 = "=0.10.9"
tokio = { version = "=1.54.1", features = ["full"] }
tracing = "=0.1.44"
tracing-subscriber = { version = "=0.3.23", features = ["env-filter"] }
