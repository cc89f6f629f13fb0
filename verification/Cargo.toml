[package]
name = "bppt"
version = "0.1.0"
edition = "2021"
publish = false

[dependencies]
anyhow = "1"
apres = "*"
babalcore = "*"
basic-toml = "*"
clap = { version = "4", features = ["derive"] }
hound = "3"
id3 = "1"
lazy-regex = "*"
meval = "0.2"
rayon = "1"
rodio = "*"
rubato = "*"
rustysynth = "*"
serde = { version = "1", features = ["derive"] }
serde_json = "1"
text_lines = "*"
tinyaudio = "*"
