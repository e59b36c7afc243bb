[package]
name = "mediathek_index"
version = "0.1.0"
edition = "2021"
publish = false

[dependencies]
rusqlite = { version = "*", features = ["bundled"] }
memchr = "*"
twoway = "*"
zstd-safe = "*"
rayon-core = "*"
serde_json = { version = "*", features = ["raw_value"] }
xz2 = { version = "*", features = ["static"] }
zeptohttpc = { version = "*", default-features = false }
