[package]
name = "td_util"
version = "0.1.0"
edition = "2021"
publish = false

[dependencies]
anyhow = "*"
argfile = "*"
clap = { version = "*", features = ["derive"] }
derive_more = { version = "*", features = ["display"] }
equivalent = "*"
serde = "*"
static_interner = "*"
