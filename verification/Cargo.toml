[package]
name = "typdiff_render"
version = "0.1.0"
edition = "2021"
publish = false

[dependencies]
typst-syntax = "=0.14.2"
