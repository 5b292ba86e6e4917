[package]
name = "vox"
version = "0.1.0"
edition = "2021"
publish = false

[dependencies]
byteorder = "1"
image = { version = "0.25", default-features = false, features = ["png"] }
minifb = "*"
nalgebra = "0.33"
nalgebra-glm = "0.19"
ordered-float = "4"
rand = "0.8"
rayon = "1"
