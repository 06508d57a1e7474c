[package]
name = "jsonl_gzip_logger"
version = "0.1.0"
edition = "2021"
publish = false

[dependencies]
flate2 = "=1.1.10"
log = { version = "=0.4.34", features = ["std"] }
thiserror = "=1.0.69"
