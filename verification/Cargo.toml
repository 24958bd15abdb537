[package]
name = "git_stack"
version = "0.1.0"
edition = "2021"
publish = false

[dependencies]
git2 = "*"
git-config-env = "*"
humantime = "*"
eyre = "*"
