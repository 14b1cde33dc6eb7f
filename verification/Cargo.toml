[package]
name = "rsgeo"
version = "0.1.0"
edition = "2021"
publish = false

[dependencies]
geo = "=0.33.1"
geo-types = { version = "=0.7.20", features = ["rstar_0_13"] }
rstar = "=0.13.0"
