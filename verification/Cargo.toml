[package]
name = "epg_core"
version = "0.1.0"
edition = "2021"
publish = false

[dependencies]
chrono = "*"
flate2 = "*"
quick-xml = { version = "*", features = ["serialize"] }
xmltv = "*"
reqwest = { version = "*", default-features = false }
log = "*"
