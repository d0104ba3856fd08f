[package]
name = "crdt-richtext"
version = "0.1.0"
edition = "2021"
publish = false

[dependencies]
fxhash = "0.2.1"
append-only-bytes = "*"
serde = { version = "1", features = ["derive"] }
serde_json = "1"
serde_columnar = "*"
string_cache = "0.8"
thiserror = "1"
flate2 = "1"
smallvec = "1"
generic-btree = "*"
arref = "*"
