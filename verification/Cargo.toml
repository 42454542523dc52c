[package]
name = "orx_split_vec"
version = "0.1.0"
edition = "2021"
publish = false

[dependencies]
orx-pinned-vec = "*"
orx-pseudo-default = "*"
orx-fixed-vec = "*"
orx-iterable = "*"
orx-concurrent-iter = "*"
