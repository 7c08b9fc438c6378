[package]
name = "block_object_store"
version = "0.1.0"
edition = "2021"
publish = false

[dependencies]
async-trait = "=0.1.92"
bytes = "=1.12.1"
futures = "=0.3.34"
object_store = { version = "=0.11.2", default-features = false }
rustc-hash = "=2.1.3"
vortex-buffer = { version = "=0.42.1", default-features = false }
vortex-io = { version = "=0.42.1", default-features = false }
