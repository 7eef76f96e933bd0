[package]
name = "box_packer"
version = "0.1.0"
edition = "2021"

[dependencies]
rutie = "*"
