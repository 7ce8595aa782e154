[package]
name = "kuznor"
version = "0.1.0"
edition = "2021"
publish = false

[dependencies]
anyhow = "=1.0.104"
chrono = { version = "=0.4.45", default-features = false, features = ["now"] }
crossbeam-channel = "=0.5.17"
eframe = { version = "=0.31.1", default-features = false, features = ["default_fonts", "glow", "x11"] }
egui = { version = "=0.31.1", default-features = false }
hex = "=0.4.3"
lopdf = { version = "=0.46.0", default-features = false }
reqwest = { version = "=0.12.28", default-features = false, features = ["blocking", "json"] }
rusqlite = { version = "=0.32.1", features = ["bundled"] }
serde = { version = "=1.0.229", features = ["derive"] }
serde_json = "=1.0.154"
sha2 = "=0.10.9"
