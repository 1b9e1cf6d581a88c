[package]
name = "sheth"
version = "0.1.0"
edition = "2021"
publish = false

[dependencies]
bigint = "*"
hex = "*"
