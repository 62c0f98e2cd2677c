[package]
name = "logical_models"
version = "0.1.0"
edition = "2021"
publish = false

[dependencies]
biodivine-lib-bdd = "0.5"
num-bigint = "0.4"
xml-rs = "0.8"
