[package]
name = "main_index"
version = "0.1.0"
edition = "2021"
publish = false

[dependencies]
bincode = "1.3"
fst = { version = "0.3", default-features = false }
serde = "1"
