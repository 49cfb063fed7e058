[package]
name = "rank_fusion"
version = "0.1.0"
edition = "2021"
publish = false

[dependencies]
pgrx = { version = "=0.16.1", default-features = false, features = ["pg17"] }
