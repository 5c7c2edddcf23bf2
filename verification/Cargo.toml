[package]
name = "iqdb-ivf"
version = "1.0.0"
edition = "2021"
publish = false

[dependencies]
iqdb-types = "*"
iqdb-distance = "*"
iqdb-filter = "*"
iqdb-index = "*"
iqdb-quantize = "*"
error-forge = "*"
tracing = "*"

[dev-dependencies]
iqdb-flat = "*"
