[package]
name = "my_no_sql_server_grpc"
version = "0.1.0"
edition = "2021"
publish = false

[dependencies]
ahash = "=0.8.12"
crc32fast = "=1.5.4"
parking_lot = "=0.12.5"
serde = { version = "=1.0.229", features = ["derive"] }
serde_yaml = "=0.9.34+deprecated"
tokio = { version = "=1.54.1", features = ["fs", "io-util", "macros", "rt", "rt-multi-thread", "sync", "time"] }
zip = { version = "=2.6.1", default-features = false, features = ["deflate"] }
zstd = "=0.13.4"
