[package]
name = "pdf_tools"
version = "0.1.0"
edition = "2021"
publish = false

[dependencies]
lopdf = "*"
image = "*"
gtk4 = "*"
glib = "*"
