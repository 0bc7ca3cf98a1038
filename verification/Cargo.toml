[package]
name = "imanot"
version = "0.1.0"
edition = "2021"
publish = false

[dependencies]
brotli = "*"
bytemuck = "*"
egui = "0.33"
futures = "*"
itertools = "*"
log = "*"
nalgebra = "*"
pulp = "*"
serde = { version = "*", features = ["derive"] }
