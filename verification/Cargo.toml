[package]
name = "anagram"
version = "0.1.0"
edition = "2021"
publish = false

[dependencies]
md5 = "0.7"
hex = "0.4"
async-std = "1"
num_cpus = "1"
