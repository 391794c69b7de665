[package]
name = "two_tdb"
version = "0.1.0"
edition = "2021"
publish = false

[dependencies]
jiff = "0.2"
rusqlite = { version = "0.37", features = ["bundled"] }
thiserror = "2"
