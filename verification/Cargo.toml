[package]
name = "bullet_utils"
version = "0.1.0"
edition = "2021"
publish = false

[dependencies]
bulletformat = "=1.8.0"
structopt = "=0.3.26"
