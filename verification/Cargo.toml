[package]
name = "bubble_lib"
version = "0.1.0"
edition = "2021"
publish = false

[dependencies]
slice_queue = "*"
queues = "1"
structopt = "0.3"
rustfft = "4"
rayon = "1"
wav = "0.6"
csv = "1"
charts = "0.3"
indicatif = "0.15"
itertools = "0.10"
winapi-util = "0.1"
packed_simd = "0.3"
