[package]
name = "zebraix"
version = "0.1.0"
edition = "2021"
publish = false

[dependencies]
serde = { version = "=1.0.229", features = ["derive"] }
serde_json = "=1.0.154"
serde_default = "=0.2.0"
cairo-rs = { version = "=0.22.9", features = ["svg"] }
pango = "=0.22.9"
pangocairo = "=0.22.9"
goldenfile = "=1.11.0"
testdir = "=0.10.0"
libm = "0.2"

[dev-dependencies]
permutohedron = "=0.2.4"
rand_pcg = "=0.3.1"
shuffle = "=0.1.7"
