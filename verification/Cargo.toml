[package]
name = "qfactors"
version = "0.1.0"
edition = "2021"
publish = false

[dependencies]
polars = { version = "*", features = ["parquet", "dtype-date", "dtype-datetime"] }
pyo3 = "*"
pyo3-polars = "*"
axum = "*"
tokio = { version = "*", features = ["macros", "rt-multi-thread", "net", "signal"] }
tower-http = { version = "*", features = ["cors", "fs"] }
serde_json = "*"
clap = { version = "*", features = ["derive"] }
linkme = "*"
syn = { version = "*", features = ["full"] }
quote = "*"
proc-macro2 = "*"
