[package]
name = "warhammer_graph"
version = "0.1.0"
edition = "2021"
publish = false

[dependencies]
caseless = "0.2"
clap = { version = "4", features = ["derive"] }
directories = "*"
eframe = { version = "0.31", default-features = false, features = ["glow", "x11", "default_fonts"] }
llama-cpp-2 = "0.1.102"
petgraph = { version = "*", features = ["serde-1"] }
postcard = { version = "1", features = ["alloc"] }
serde = { version = "1", features = ["derive"] }
serde_json = "1"
sha2 = "0.10"
