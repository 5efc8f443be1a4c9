[package]
name = "syntax_tree"
version = "0.1.0"
edition = "2021"
publish = false

[dependencies]
nom = "7"
leptos = { version = "0.6", features = ["csr"] }
web-sys = { version = "0.3", features = ["HtmlDivElement"] }
