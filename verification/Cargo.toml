[package]
name = "compute_pass"
version = "0.1.0"
edition = "2021"
publish = false

[dependencies]
arrayvec = "0.5"
gfx-hal = "0.6"
serde = { version = "1", features = ["derive"] }
thiserror = "1"
tracing = "0.1"
