[package]
name = "storage"
version = "0.1.0"
edition = "2021"
publish = false

[dependencies]
base64 = "0.22"
sha2 = "0.10"
serde_json = "1"
raptorq = "2"
uuid = { version = "1", features = ["v4"] }
prost = "0.12"
bytes = "1"
cassandra-cpp = "3"
zenoh = { version = "0.11", default-features = false, features = ["transport_tcp"] }
flume = "0.11"
futures = "0.3"
signal-hook = "0.3"
cron = "0.12"
chrono = "0.4"
log = "0.4"
env_logger = { version = "0.11", default-features = false }
