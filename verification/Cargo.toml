[package]
name = "orderbook"
version = "0.1.0"
edition = "2021"
publish = false

[dependencies]
chrono = "*"
sha2 = "*"
actix = "*"
actix-web = "*"
actix-web-actors = "*"
tokio = { version = "*", features = ["full"] }
parking_lot = "*"
ringbuf = "*"
rdkafka = "*"
scylla = "*"
serde = { version = "*", features = ["derive"] }
serde_json = "*"
wincode = "*"
wincode-derive = "*"
uuid = { version = "*", features = ["v4"] }
tracing = "*"
dotenv = "*"
thiserror = "*"
