[package]
name = "duscan"
version = "0.1.0"
edition = "2021"
publish = false

[dependencies]
bincode = "1"
chrono = "0.4"
clap = { version = "4", features = ["derive"] }
crossterm = "*"
dashmap = "*"
glob = "0.3"
ignore = "0.4"
libc = "0.2"
lz4_flex = "*"
ratatui = "*"
rayon = "1"
rusqlite = { version = "*", features = ["bundled"] }
serde = { version = "1", features = ["derive"] }
serde_json = "1"
tempfile = "3"
toml = "*"
zstd = "*"
