[package]
name = "sfdc"
version = "0.1.0"
edition = "2021"
publish = false

[dependencies]
bitvec = "=1.1.1"
mem_dbg = "=0.2.5"
