[package]
name = "relay_reactor"
version = "0.1.0"
edition = "2021"
publish = false

[dependencies]
slab = "0.4"
rust-crypto = "0.2"
mio = "0.6"
log = "0.4"
