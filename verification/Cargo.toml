[package]
name = "egglog_wrapper"
version = "0.1.0"
edition = "2021"
publish = false

[dependencies]
dashmap = "=6.2.1"
egglog = "=0.5.0"
indexmap = "=2.14.2"
inventory = "=0.3.25"
log = "=0.4.34"
smallvec = "=1.16.4"
