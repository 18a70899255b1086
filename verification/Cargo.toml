[package]
name = "course_graph"
version = "0.1.0"
edition = "2021"
publish = false

[dependencies]
chrono = { version = "*", default-features = false, features = ["clock"] }
dot-structures = "*"
graphviz-rust = { version = "*", default-features = false }
