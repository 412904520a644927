[package]
name = "moshiki"
version = "0.1.0"
edition = "2021"
publish = false

[dependencies]
fxhash = "*"
murmurhash32 = "*"
zstd = "*"
postcard = { version = "1", features = ["alloc"] }
serde = { version = "1", features = ["derive"] }
tantivy-sstable = "*"
tantivy-common = "*"
