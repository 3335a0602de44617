[package]
name = "tracetool"
version = "0.1.0"
edition = "2021"
publish = false

[dependencies]
bytesize = "1"
chrono = "0.4"
clap = "4"
csv = "1"
indicatif = "0.17"
nalgebra = "0.32"
ndarray = "0.15"
plotly = "0.8"
rusqlite = { version = "0.29", features = ["bundled"] }
serde = { version = "1", features = ["derive"] }
serde_yaml = "0.9"
sqlparser = { version = "*", features = ["visitor"] }
