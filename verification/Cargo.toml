[package]
name = "linecodec"
version = "0.1.0"
edition = "2021"
publish = false

[dependencies]
capnp = "=0.10.3"
memmap = "=0.7.0"

[dev-dependencies]
abomonation = "=0.7.3"
