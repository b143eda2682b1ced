[package]
name = "batch_renamer"
version = "0.1.0"
edition = "2021"
publish = false

[dependencies]
glob = "=0.3.4"
itertools = "=0.15.0"
kamadak-exif = "=0.6.1"
walkdir = "=2.5.0"
