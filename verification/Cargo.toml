[package]
name = "forest-ds"
version = "0.1.0"
edition = "2021"

[dependencies]
displaydoc = "0.2"
serde = "1"
thiserror = "1"
