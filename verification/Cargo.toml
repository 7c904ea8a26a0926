[package]
name = "stream_xlsx"
version = "0.1.0"
edition = "2021"
publish = false

[dependencies]
anyhow = "=1.0.104"
atoi_simd = "=0.18.1"
bytes = "=1.12.1"
calamine = "=0.38.0"
chrono = "=0.4.45"
clap = { version = "=4.6.7", features = ["derive"] }
clap_complete = "=4.6.11"
crossbeam-channel = "=0.5.17"
fast-float = "=0.2.0"
polars = { version = "=0.55.2", default-features = false, features = ["csv", "parquet", "fmt", "dtype-datetime"] }
polars-arrow = { version = "=0.55.2", default-features = false }
polars-buffer = { version = "=0.55.2", default-features = false }
pyo3 = { version = "=0.29.3", features = ["abi3-py39"] }
pyo3-polars = { version = "=0.28.0", default-features = false }
quick-xml = "=0.39.4"
rand = "=0.10.3"
rust_xlsxwriter = "=0.102.0"
zip = "=9.2.2"
