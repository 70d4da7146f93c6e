[package]
name = "yongkey"
version = "0.1.0"
edition = "2021"
publish = false

[dependencies]
pinyin = "*"
permutation_iterator = "*"
itertools = "*"
chrono = "*"
humantime = "*"
num-bigint = "*"
nom = "*"
