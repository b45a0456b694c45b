[package]
name = "simlab"
version = "0.1.0"
edition = "2021"
publish = false

[dependencies]
rand = "0.9"
rand_chacha = "0.9"
rand_distr = "0.5"
serde = { version = "1", features = ["derive"] }
serde_json = "1"
clap = { version = "4", features = ["derive"] }
tempfile = "3"
thiserror = "2"
plotters = { version = "0.3", default-features = false, features = ["bitmap_backend", "bitmap_encoder", "all_series", "all_elements", "full_palette"] }
