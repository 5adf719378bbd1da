[package]
name = "ydb_ng"
version = "0.1.0"
edition = "2021"
publish = false

[dependencies]
clap = "2"
fnv = "1"
spin = "0.5"
threadpool = "1"
