[package]
name = "pcmflux"
version = "0.1.0"
edition = "2021"
publish = false

[dependencies]
audiopus_sys = "0.2"
bytemuck = "1"
libc = "0.2"
libpulse-binding = "2"
opus = "0.3"
pyo3 = { version = "0.27", features = ["extension-module"] }
