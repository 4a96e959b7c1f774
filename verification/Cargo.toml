[package]
name = "hash"
version = "0.1.0"
edition = "2021"
publish = false

[dependencies]
farmhash = "=1.1.5"
mur3 = "=0.1.0"
t1ha = "=0.1.2"
rand = "=0.10.3"
