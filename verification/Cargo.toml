[package]
name = "sevent"
version = "0.1.0"
edition = "2021"
publish = false

[dependencies]
mio = "0.6"
mio-more = "0.1"
slab = "0.4"
lazycell = "1"
bytes = "0.4"
bincode = "1"
serde = { version = "1", features = ["derive"] }
rand = "0.4"
log = "0.4"
iovec = "0.1"
