[package]
name = "omakeys"
version = "0.1.0"
edition = "2021"
publish = false

[dependencies]
anyhow = "1"
async-channel = "2"
atspi = { version = "0.25", features = ["connection", "proxies"] }
cairo-rs = "0.20"
clap = { version = "4", features = ["derive"] }
crossterm = "0.28"
directories = "6"
env_logger = "0.11"
futures-lite = "2"
gdk4 = "0.9"
gdk4-wayland = { version = "0.9", features = ["wayland_crate"] }
glib = "0.20"
gtk4 = "0.9"
gtk4-layer-shell = "0.5"
image = { version = "=0.25.10", default-features = false, features = ["gif"] }
imageproc = { version = "=0.25.1", default-features = false }
log = "0.4"
memmap2 = "0.9"
ratatui = "0.29"
rustix = { version = "1", features = ["fs"] }
serde = { version = "1", features = ["derive"] }
serde_json = "1"
wayland-client = "0.31"
wayland-protocols-wlr = { version = "0.3", features = ["client"] }
zbus = "5"
zvariant = "5"
