[package]
name = "kvs"
version = "0.1.0"
edition = "2021"
publish = false

[dependencies]
hash32 = "0.2"
byteorder = "1"
embedded-hal = "0.2"
heapless = "0.7"
postcard = "1"
serde = { version = "1", features = ["derive"] }
