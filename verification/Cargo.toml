[package]
name = "small_sorted_map"
version = "0.1.0"
edition = "2021"
publish = false

[dependencies]
smallvec = { version = "1", features = ["const_generics"] }
