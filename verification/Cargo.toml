[package]
name = "test_project"
version = "0.1.0"
edition = "2021"
publish = false

[dependencies]
serde_json = "*"
syn = { version = "*", features = ["full"] }
proc-macro2 = { version = "*", features = ["span-locations"] }
