[package]
name = "scope_graph"
version = "0.1.0"
edition = "2021"
publish = false

[dependencies]
rowan = "0.15"
string-interner = "0.15"
