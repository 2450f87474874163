[package]
name = "wayfrost"
version = "0.1.0"
edition = "2021"
publish = false

[dependencies]
anyhow = "=1.0.104"
env_logger = "=0.11.11"
log = "=0.4.35"
xdg = "=2.5.2"
ndarray = "=0.17.2"
image = { version = "=0.25.6", default-features = false, features = ["png"] }
ort = { version = "=2.0.0-rc.15", default-features = false, features = ["std", "ndarray", "load-dynamic"] }
glib = "=0.20.12"
gtk4 = "=0.9.7"
libadwaita = "=0.7.2"
