[package]
name = "dm-database-parser-sqllog"
version = "2.0.0"
edition = "2021"
publish = false

[dependencies]
memchr = "2"
atoi = "2"
encoding = "0.2"
simdutf8 = "0.1"
daachorse = "1"
fast-float = "0.2"
thiserror = "2"
tokio = { version = "1", features = ["rt", "rt-multi-thread", "macros"] }
