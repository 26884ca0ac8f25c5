[package]
name = "point_viewer"
version = "0.1.0"
edition = "2021"
publish = false

[dependencies]
cgmath = { version = "0.17", features = ["serde"] }
collision = "0.20"
crossbeam = "0.7"
num-traits = "0.2"
protobuf = "2"
serde = { version = "1", features = ["derive"] }
structopt = "0.3"
