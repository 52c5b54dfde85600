[package]
name = "lalr_sdd"
version = "0.1.0"
edition = "2021"
publish = false

[dependencies]
itertools = "*"
logos = "*"
proc-macro2 = "1"
quote = "1"
syn = { version = "2", features = ["full"] }
