[package]
name = "hyperopt_rs"
version = "0.1.0"
edition = "2021"
publish = false

[dependencies]
rand = "*"
serde = { version = "*", features = ["derive"] }
serde_json = "*"
tpe = "*"
rusqlite = { version = "*", features = ["bundled"] }
rayon = "*"
plotters = { version = "*", default-features = false, features = ["svg_backend", "line_series", "point_series"] }
rustls = { version = "*", default-features = false, features = ["ring", "std"] }
