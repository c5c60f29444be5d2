[package]
name = "vortex_read"
version = "0.1.0"
edition = "2021"
publish = false

[dependencies]
arrow-arith = "=60.1.0"
arrow-array = "=60.1.0"
arrow-schema = "=60.1.0"
futures = "=0.3.34"
termtree = "=1.0.0"
vortex-buffer = "=0.90.0"
vortex-dtype = "=0.59.4"
vortex-scalar = "=0.58.0"
vortex-session = "=0.90.0"
