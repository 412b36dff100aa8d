[package]
name = "oscar_tokenize"
version = "0.1.0"
edition = "2021"
publish = false

[dependencies]
regex = "=1.13.1"
serde = { version = "=1.0.229", features = ["derive"] }
serde_json = "=1.0.151"
quick-xml = "=0.42.0"
arrow = "=60.0.0"
rayon = "=1.12.0"
indicatif = { version = "=0.18.6", features = ["rayon"] }
num_cpus = "=1.17.0"
fastrand = "=2.5.0"
rusqlite = { version = "=0.40.2", features = ["bundled"] }
dashmap = "=6.2.1"
