[package]
name = "subtile_ocr"
version = "0.1.0"
edition = "2021"
publish = false

[dependencies]
anyhow = "=1.0.104"
clap = { version = "=4.6.7", features = ["derive"] }
crossterm = "=0.29.0"
image = { version = "=0.25.10", default-features = false, features = ["pnm"] }
leptess = "=0.14.0"
log = "=0.4.34"
profiling = "=1.0.18"
ratatui = "=0.30.2"
ratatui-image = { version = "=11.1.0", default-features = false, features = ["crossterm"] }
rayon = "=1.12.0"
ron = "=0.12.2"
scoped-tls-hkt = "=0.1.5"
serde = { version = "=1.0.229", features = ["derive"] }
simple_logger = "=5.2.0"
subtile = "=0.4.1"
thiserror = "=2.0.21"
