[package]
name = "cherry"
version = "0.1.0"
edition = "2021"
publish = false

[dependencies]
macroquad = "=0.4.16"
egui-macroquad = "=0.17.3"
rapier2d = "=0.36.1"
realfft = "=3.5.1"
rustfft = "=6.4.1"
rfd = { version = "=0.17.2", default-features = false, features = ["xdg-portal"] }
