[package]
name = "copc_writer"
version = "0.5.0"
edition = "2021"
publish = false

[dependencies]
las = { version = "0.9", features = ["laz"] }
laz = "0.12"
las-crs = "0.1"
crs-definitions = "0.3"
log = "0.4"
