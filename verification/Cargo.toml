[package]
name = "branchdiff"
version = "0.1.0"
edition = "2021"
publish = false

[dependencies]
anyhow = "=1.0.104"
base64 = "=0.22.1"
clap = { version = "=4.6.7", features = ["derive"] }
crossterm = "=0.29.0"
ignore = "=0.4.34"
image = "=0.25.10"
libc = "=0.2.191"
notify = "=8.2.1"
notify-debouncer-mini = "=0.7.0"
ratatui = "=0.30.2"
ratatui-image = { version = "=11.1.0", default-features = false, features = ["crossterm", "image-defaults"] }
resvg = "=0.49.0"
syntect = "=5.3.0"
two-face = "=0.5.2"
unicode-width = "=0.2.3"
