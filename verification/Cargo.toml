[package]
name = "dyn_schema"
version = "0.1.0"
edition = "2021"
publish = false

[dependencies]
bincode = "1.3.3"
serde = "1"
serde_json = "1"
thiserror = "1"
