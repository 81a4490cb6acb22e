[package]
name = "keymap"
version = "0.1.0"
edition = "2021"
publish = false

[dependencies]
gdk = "0.17"
gtk = "0.17"
serde = { version = "1", features = ["derive"] }
codespan-reporting = "0.11"
