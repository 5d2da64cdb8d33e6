[package]
name = "rfsm"
version = "0.2.1"
edition = "2021"

[dependencies]
proc-macro2 = "1"
quote = "1"
serde = { version = "1", features = ["derive"] }
syn = "2"
