[package]
name = "async_dispatcher"
version = "0.1.0"
edition = "2021"
publish = false

[dependencies]
hashbrown = "=0.14.5"
futures = "=0.1.31"
shred = { version = "*", default-features = false }
