[package]
name = "bugspots"
version = "0.1.0"
edition = "2021"
publish = false

[dependencies]
regex = "*"
git2 = "*"
structopt = "*"
time = { version = "*", features = ["formatting"] }
