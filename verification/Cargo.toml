[package]
name = "simple_laxer"
version = "0.1.0"
edition = "2021"
publish = false
