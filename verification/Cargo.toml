[package]
name = "orderbook"
version = "0.1.0"
edition = "2021"
publish = false

[dependencies]
rtrb = "0.3"
serde_json = "1"
tungstenite = { version = "0.20", features = ["rustls-tls-webpki-roots"] }
url = "2"
