[package]
name = "vfs_core"
version = "0.1.0"
edition = "2021"
publish = false

[dependencies]
hashbrown = "=0.17.1"
pinecone = "=0.2.5"
serde = { version = "=1.0.229", features = ["derive"] }
spin = "=0.12.3"
lazy_static = "=1.5.1"
log = "=0.4.34"
x86_64 = { version = "=0.15.5", default-features = false, features = ["instructions"] }
