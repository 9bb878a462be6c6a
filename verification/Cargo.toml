[package]
name = "sprack"
version = "0.1.0"
edition = "2021"
publish = false

[dependencies]
rayon = "1"
docopt = "1"
image = { version = "0.24", default-features = false, features = ["png", "jpeg", "gif", "bmp", "ico", "tiff", "webp", "pnm"] }
rand = "0.8"
serde = { version = "1", features = ["derive"] }
serde_derive = "1"
