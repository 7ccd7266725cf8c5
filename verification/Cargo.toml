[package]
name = "fractal_render"
version = "0.1.0"
edition = "2021"
publish = false

[dependencies]
crossbeam = "0.8"
image = { version = "0.25", default-features = false, features = ["png"] }
num = "0.4"
num_cpus = "1"
sdl2 = "*"

[dev-dependencies]
quickcheck = { version = "1", default-features = false }
