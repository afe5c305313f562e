[package]
name = "tsql"
version = "0.1.0"
edition = "2021"
publish = false

[dependencies]
percent-encoding = "2"
url = "2"
rustls = "0.23"
tokio-postgres-rustls-improved = "*"
webpki-roots = "*"
