[package]
name = "battlefield_sim"
version = "0.1.0"
edition = "2021"
publish = false

[dependencies]
arrayvec = "0.7"
clap = { version = "4", features = ["derive"] }
rand = "0.8"
rayon = "1"
rusqlite = { version = "0.31", features = ["bundled"] }
serde = { version = "1", features = ["derive"] }
serde_json = "1"
thiserror = "1"
tracing = "0.1"
tracing-subscriber = { version = "0.3", features = ["env-filter", "fmt"] }

[dev-dependencies]
approx = "0.5"
