[package]
name = "lsi_search"
version = "0.1.0"
edition = "2021"
publish = false

[dependencies]
regex = "1"
bincode = "1.3"
serde = { version = "1", features = ["derive"] }
sprs = "0.11"
nalgebra = "0.33"
rand = "0.8"
rusqlite = "0.31"
