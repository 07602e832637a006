[package]
name = "mission-center"
version = "0.1.0"
edition = "2021"
publish = false

[dependencies]
arrayvec = "*"
gdk4-wayland = "*"
glib = "*"
gtk4 = "*"
libadwaita = "*"
wayland-client = "*"
wayland-protocols = { version = "*", features = ["client", "staging"] }
