[package]
name = "grib2pmtiles"
version = "0.1.0"
edition = "2021"
publish = false

[dependencies]
anyhow = "1"
bit-vec = "*"
chrono = "0.4"
clap = { version = "4", features = ["derive"] }
fast_hilbert = "*"
flate2 = "1"
foldhash = "*"
i_overlay = "*"
indexmap = "2"
itertools = "*"
pmtiles = { version = "0.23", default-features = false, features = ["write"] }
prost = "*"
rayon = "1"
serde = { version = "1", features = ["derive"] }
serde_json = "1"
tinymvt = "*"
tracing = "0.1"
tracing-subscriber = "0.3"
