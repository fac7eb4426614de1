[package]
name = "genemichaels_comments"
version = "0.1.0"
edition = "2021"

[dependencies]
anyhow = "=1.0.104"
proc-macro2 = { version = "=1.0.107", default-features = false, features = ["span-locations"] }
pulldown-cmark = { version = "=0.9.6", default-features = false }
