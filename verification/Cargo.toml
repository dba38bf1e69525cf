[package]
name = "mandelbrot"
version = "0.1.0"
edition = "2021"
publish = false

[dependencies]
num-complex = "0.4"
png = "*"
rayon = "1"
wide = "*"
bytemuck = { version = "1", features = ["extern_crate_alloc"] }
thiserror = "2"
