[package]
name = "excel_to_parquet"
version = "0.1.0"
edition = "2021"
publish = false

[dependencies]
blake3 = "*"
time = "*"
calamine = "*"
duckdb = "*"
clap = { version = "*", features = ["derive"] }
serde = { version = "*", features = ["derive"] }
serde_json = "*"
serde_yaml = "*"
rayon = "*"
walkdir = "*"
sysinfo = "*"
num_cpus = "*"
anyhow = "*"
