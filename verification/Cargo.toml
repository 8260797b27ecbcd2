[package]
name = "railml2dgraph"
version = "0.1.0"
edition = "2021"
publish = false

[dependencies]
minidom = "0.12"
