[package]
name = "vp_tree_database"
version = "0.1.0"
edition = "2021"
publish = false

[dependencies]
rand = "=0.8.5"
rand_chacha = "=0.3.1"
rand_core = "=0.6.4"
