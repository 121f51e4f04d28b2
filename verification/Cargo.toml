[package]
name = "fractal_farm"
version = "0.1.0"
edition = "2021"
publish = false

[dependencies]
sha2 = "=0.8.2"
time = "=0.3.55"
dotenv = "=0.15.0"
diesel = { version = "=2.3.14", features = ["sqlite", "r2d2"] }
r2d2 = "=0.8.10"
rocket = { version = "=0.5.2", features = ["json"] }
rocket_dyn_templates = { version = "*", features = ["tera"] }
serde = { version = "=1.0.229", features = ["derive"] }
serde_derive = "=1.0.229"
serde_json = "=1.0.154"
