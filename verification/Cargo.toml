[package]
name = "ticker"
version = "0.1.0"
edition = "2021"
publish = false

[dependencies]
csv = "*"
structopt = "*"
time = "*"
tokio = { version = "*", features = ["rt"] }
yahoo_finance_api = "*"
