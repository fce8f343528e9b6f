[package]
name = "tabnas-multisource"
version = "0.5.8"
edition = "2021"
publish = false

[dependencies]
indexmap = "=2.14.2"
serde_json = "=1.0.154"
tabnas-parser = "=0.12.15"
tabnas-jsonic = "=0.7.10"
tabnas-directive = "=0.5.13"
