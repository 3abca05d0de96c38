[package]
name = "crabquery"
version = "0.1.0"
edition = "2021"

[dependencies]
html5ever = "=0.26.0"
markup5ever = "=0.11.0"
markup5ever_arcdom = "=0.1.2"
