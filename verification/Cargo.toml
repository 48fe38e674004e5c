[package]
name = "smol_db"
version = "0.1.0"
edition = "2021"
publish = false

[dependencies]
thiserror = "2"
parking_lot = "0.12"
