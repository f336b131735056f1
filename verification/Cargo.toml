[package]
name = "stock_tracing"
version = "0.1.0"
edition = "2021"
publish = false

[dependencies]
chrono = "0.4"
clap = { version = "4", features = ["derive"] }
yahoo_finance_api = { version = "1", features = ["blocking"] }
