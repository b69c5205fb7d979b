[package]
name = "sit_core"
version = "0.1.0"
edition = "2021"
publish = false

[dependencies]
data-encoding = "2"
blake2 = "0.10"
sha1 = "0.10"
digest = "0.10"
uuid = { version = "1", features = ["v4"] }
relative-path = "1"
tini = "1"
serde = { version = "1", features = ["derive"] }
serde_json = "1"
walkdir = "2"
glob = "0.3"
tempdir = "0.3"
fs2 = "0.4"
dunce = "1"
chrono = "0.4"
clap = "2"
jmespath = "0.3"
which = "4"
directories = "5"
atty = "0.2"
question = "0.2"
itertools = "0.10"
rayon = "1"
fs_extra = "1"
pbr = "1"
yaml-rust = "0.4"
hex = "0.4"
