[package]
name = "astrostack"
version = "0.1.0"
edition = "2021"
publish = false

[dependencies]
bitarray = "*"
bitvec = "*"
clap = { version = "*", features = ["derive"] }
cv = "*"
either = "*"
image = { version = "*", default-features = false, features = ["png", "jpeg", "tiff"] }
imageproc = { version = "*", default-features = false }
itertools = "*"
linreg = "*"
minimp4 = "*"
openh264 = "*"
ordered-float = "*"
plotters = { version = "*", default-features = false, features = ["bitmap_backend", "bitmap_encoder", "all_series", "all_elements"] }
rayon = "*"
serde = { version = "*", features = ["derive"] }
serde_json = "*"
