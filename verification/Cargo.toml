[package]
name = "lemmalog"
version = "0.1.0"
edition = "2021"
publish = false

[dependencies]
grep-regex = "0.1"
grep-searcher = "0.1"
