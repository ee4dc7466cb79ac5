[package]
name = "naia_server"
version = "0.1.0"
edition = "2021"
publish = false

[dependencies]
byteorder = "=1.5.0"
indexmap = "=2.14.2"
log = "=0.4.35"
parking_lot = "=0.12.5"
crossbeam-channel = "=0.5.17"
fastrand = "=2.5.0"
ring = "0.17"
