[package]
name = "invoice_payables"
version = "0.1.0"
edition = "2021"
publish = false

[dependencies]
chrono = "=0.4.45"
serde = { version = "=1.0.229", features = ["derive"] }
serde_json = "=1.0.154"
toml = "=0.8.23"
actix-web = "=4.18.1"
actix-files = "=0.6.10"
tiberius = { version = "=0.12.3", default-features = false, features = ["tds73", "rustls"] }
deadpool-tiberius = { version = "=0.1.9", default-features = false, features = ["tds73", "rustls"] }
futures-util = "=0.3.34"
thiserror = "=1.0.69"
connection-string = "=0.2.0"
