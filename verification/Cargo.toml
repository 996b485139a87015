[package]
name = "kafka-key-guestimator"
version = "0.1.0"
edition = "2021"
publish = false

[dependencies]
serde_json = "=1.0.154"
opentelemetry-proto = { version = "=0.33.1", default-features = false, features = ["gen-tonic-messages", "metrics", "with-serde"] }
anyhow = "=1.0.104"
chrono = "=0.4.45"
clap = { version = "=4.6.7", features = ["derive", "env"] }
csv = "=1.4.0"
futures = "=0.3.34"
jemallocator = "=0.5.4"
libc = "=0.2.191"
opentelemetry = "=0.33.1"
opentelemetry_sdk = { version = "=0.33.1", features = ["rt-tokio"] }
opentelemetry-otlp = { version = "=0.33.1", features = ["grpc-tonic"] }
opentelemetry-semantic-conventions = "=0.33.1"
rdkafka = "=0.39.0"
tokio = { version = "=1.54.1", features = ["full"] }
tracing = "=0.1.44"
tracing-opentelemetry = "=0.34.0"
tracing-subscriber = { version = "=0.3.23", features = ["env-filter"] }
uuid = { version = "=1.29.0", features = ["v4"] }
