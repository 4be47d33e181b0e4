[package]
name = "viter"
version = "0.1.0"
edition = "2021"
publish = false

[dependencies]
anyhow = "1"
clap = { version = "4", features = ["derive"] }
encoding_rs = "0.8"
faer = { version = "*", default-features = false, features = ["std"] }
hound = "3"
ndarray = { version = "*", features = ["serde"] }
owo-colors = "4"
postcard = { version = "1", features = ["alloc", "use-std"] }
rand = "*"
rand_xoshiro = "*"
rayon = "1"
realfft = "3"
rubato = "*"
serde = { version = "1", features = ["derive"] }
serde_json = "1"
symphonia = { version = "*", features = ["wav", "flac", "mp3", "pcm", "adpcm"] }
thiserror = "2"
tracing = "0.1"
walkdir = "2"
zip = { version = "*", default-features = false, features = ["deflate"] }
