[package]
name = "multilinear_extensions"
version = "0.1.0"
edition = "2021"
publish = false

[dependencies]
ark-ff = "0.5"
ark-test-curves = { version = "0.5", features = ["bls12_381_curve"] }
hashbrown = "0.15"
rand = "0.8"
thiserror = "1"
plotters = { version = "0.3", default-features = false, features = ["bitmap_backend", "bitmap_encoder", "line_series", "point_series"] }
dhat = "0.3"
