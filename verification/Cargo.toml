[package]
name = "acts_ks2"
version = "0.1.0"
edition = "2021"
publish = false

[dependencies]
calamine = "*"
walkdir = "*"
xlsxwriter = "*"
