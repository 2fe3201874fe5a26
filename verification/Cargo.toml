[package]
name = "imagespin"
version = "0.1.0"
edition = "2021"
publish = false

[dependencies]
color_quant = "*"
ttf-parser = "*"
json5 = "*"
serde = { version = "1", features = ["derive"] }
serde_path_to_error = "*"
serde_json = "1"
image = { version = "*", default-features = false, features = ["png"] }
gif = "*"
tiny-skia = "*"
rand = "*"
rayon = "*"
clap = { version = "4", features = ["derive"] }
