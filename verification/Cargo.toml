[package]
name = "pg-importer"
version = "0.1.0"
edition = "2021"
publish = false

[dependencies]
clap = "=2.34.0"
derive-error = "=0.0.5"
postgres = "=0.19.14"
