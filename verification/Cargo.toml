[package]
name = "esql"
version = "0.1.0"
edition = "2021"
publish = false

[dependencies]
sha2 = "0.10"
base16ct = { version = "0.2", features = ["alloc"] }
thiserror = "*"
futures-util = "*"
tokio-postgres = { version = "*", features = ["with-serde_json-1", "with-time-0_3", "with-uuid-1"] }
mysql_async = { version = "*", default-features = false, features = ["minimal"] }
time = "*"
uuid = "*"
serde_json = "*"
rust_decimal = { version = "*", features = ["db-tokio-postgres"] }
