[package]
name = "bm25"
version = "0.1.0"
edition = "2021"
publish = false

[dependencies]
order-stat = "*"
rayon = "*"
