[package]
name = "doc_printer"
version = "0.1.0"
edition = "2021"
publish = false

[dependencies]
oxc_ast = "0.44"
oxc_span = "0.44"
oxc_diagnostics = "0.44"
project-root = "*"
