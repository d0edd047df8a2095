[package]
name = "enigma"
version = "0.1.0"
edition = "2021"
publish = false

[dependencies]
allocator_api = "=0.6.0"
hashbrown = "=0.17.1"
libflate = "=2.3.2"
parking_lot = "=0.13.0"
regex = "=1.13.1"
tokio = { version = "=1.54.1", default-features = false, features = ["rt", "time"] }
