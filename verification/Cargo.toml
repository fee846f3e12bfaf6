[package]
name = "generic_btree"
version = "0.1.0"
edition = "2021"
publish = false

[dependencies]
smallvec = "=1.16.4"
cc-traits = { version = "=2.0.0", features = ["slab"] }
slab = "=0.4.12"

[dev-dependencies]
rand = { version = "=0.7.3", features = ["small_rng"] }
