[package]
name = "reload_filter"
version = "0.1.0"
edition = "2021"
publish = false

[dependencies]
opentelemetry = "0.23"
opentelemetry_sdk = "0.23"
opentelemetry-jaeger = "0.22"
tracing = "0.1"
tracing-core = "0.1"
tracing-opentelemetry = "0.24"
tracing-subscriber = { version = "0.3", features = ["env-filter"] }
