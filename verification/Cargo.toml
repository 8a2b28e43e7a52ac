[package]
name = "macho_link"
version = "0.1.0"
edition = "2021"
publish = false

[dependencies]
anyhow = "1"
blake3 = { version = "1", features = ["rayon"] }
clap = { version = "4", features = ["derive"] }
colosseum = "*"
gimli = "*"
hashbrown = "*"
itertools = "*"
object = "*"
rayon = "1"
serde = { version = "1", features = ["derive"] }
serde_yaml = "*"
sha2 = "*"
