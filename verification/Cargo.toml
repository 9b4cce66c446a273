[package]
name = "strack"
version = "0.1.0"
edition = "2021"
publish = false

[dependencies]
serde = { version = "1", features = ["derive"] }
serde_json = "1"
prettytable-rs = "*"
flexi_logger = "*"
log = "0.4"
