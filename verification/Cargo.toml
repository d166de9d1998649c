[package]
name = "wayland_commons"
version = "0.1.0"
edition = "2021"
publish = false

[dependencies]
nix = "0.26"
smallvec = "1"
xcursor = "0.3"
