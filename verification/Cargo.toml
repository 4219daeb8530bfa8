[package]
name = "runjs"
version = "0.1.0"
edition = "2021"
publish = false

[dependencies]
deno_ast = { version = "*", features = ["transpiling"] }
deno_core = "*"
deno_error = "*"
reqwest = { version = "*", default-features = false }
tokio = { version = "*", features = ["full"] }
