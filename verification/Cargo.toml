[package]
name = "lance_inspector"
version = "0.1.0"
edition = "2021"
publish = false

[dependencies]
anyhow = "1"
arrow-array = "58"
arrow-json = "58"
arrow-schema = "58"
axum = "0.8"
clap = { version = "4", features = ["derive", "env"] }
datafusion-execution = { version = "54", default-features = false }
datafusion-expr = { version = "54", default-features = false }
datafusion-sql = { version = "54", default-features = false }
file-format = "=0.29.0"
futures = "0.3"
jemalloc_pprof = { version = "*", features = ["flamegraph"] }
lance-core = { version = "=14.0.2", default-features = false }
lru = "=0.19.0"
pprof = { version = "*", features = ["flamegraph"] }
prost = "0.14"
serde = { version = "1", features = ["derive"] }
serde_json = "1"
thiserror = "2"
tikv-jemallocator = "*"
tokio = { version = "1", features = ["full"] }
tower-http = { version = "0.6", features = ["fs", "trace"] }
uuid = { version = "=1.29.0", features = ["v4", "serde"] }
