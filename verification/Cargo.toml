[package]
name = "jj-hunk-tool"
version = "0.1.0"
edition = "2021"
publish = false

[dependencies]
anyhow = "1"
console = "*"
git-surgeon = "*"
syntect = "5"
tempfile = "3"
