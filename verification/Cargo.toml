[package]
name = "oxide"
version = "0.1.0"
edition = "2021"
publish = false

[dependencies]
bexpand = "1.2"
bstr = "1"
fxhash = "0.2.1"
globset = "0.4"
rayon = "1"
tracing = "0.1"
tracing-subscriber = "0.3"
