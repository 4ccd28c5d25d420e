[package]
name = "synfection"
version = "0.2.0"
edition = "2021"
publish = false

[dependencies]
anyhow = "1"
clap = { version = "4", default-features = false, features = ["std", "derive", "help", "usage", "error-context"] }
eframe = { version = "0.29", default-features = false, features = ["default_fonts", "glow", "x11"] }
hound = "3.5"
image = { version = "0.25", default-features = false, features = ["png"] }
libm = "0.2"
midly = { version = "0.5", default-features = false, features = ["alloc", "std"] }
rand = { version = "0.8", features = ["small_rng"] }
rayon = "1"
realfft = "3"
