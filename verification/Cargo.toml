[package]
name = "root_finder"
version = "0.1.0"
edition = "2021"

[dependencies]
num-dual = "=0.14.2"
