[package]
name = "acf"
version = "0.1.0"
edition = "2021"
publish = false

[dependencies]
ahash = "=0.8.12"
indexmap = "=2.14.2"
kstring = "=1.0.6"
lexical = { version = "=7.0.5", features = ["format"] }
ordered-float = "=5.5.0"
smallvec = "=1.16.4"
snailquote = "=0.3.1"
