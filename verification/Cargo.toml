[package]
name = "persisted_files"
version = "0.1.0"
edition = "2021"
publish = false

[dependencies]
hashbrown = "0.15"
parking_lot = "0.12"
