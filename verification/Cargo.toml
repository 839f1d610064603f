[package]
name = "bft_sync"
version = "0.1.0"
edition = "2021"
publish = false

[dependencies]
async-channel = "1"
futures = "0.3"
