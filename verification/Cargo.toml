[package]
name = "comparew"
version = "0.1.0"
edition = "2021"
publish = false

[dependencies]
similar = "2"
sha2 = "0.10"
zip = { version = "2", default-features = false, features = ["deflate"] }
calamine = "*"
serde = { version = "1", features = ["derive"] }
