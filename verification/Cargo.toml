[package]
name = "path_jail"
version = "0.1.0"
edition = "2021"
publish = false

[dependencies]

[dev-dependencies]
fs-err = "2"
symlink = "0.1"
tempfile = "=3.27.0"
