[package]
name = "kip_db"
version = "0.1.0"
edition = "2021"
publish = false

[dependencies]
async-trait = "*"
bytes = "*"
fslock = "*"
itertools = "*"
parking_lot = "*"
rs-snowflake = "*"
tokio = { version = "*", default-features = false, features = ["sync", "rt", "time"] }
tracing = { version = "*", default-features = false }
