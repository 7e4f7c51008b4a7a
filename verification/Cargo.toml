[package]
name = "sanngaa"
version = "0.1.0"
edition = "2021"
publish = false

[dependencies]
html5ever-atoms = "*"
kuchiki = "0.8"
markup5ever = "0.10"
tendril = "0.4"
xml5ever = "0.16"
