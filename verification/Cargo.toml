[package]
name = "bytehound"
version = "0.1.0"
edition = "2021"
publish = false

[dependencies]
hashbrown = { version = "=0.14.5", features = ["raw"] }
regex = "=1.13.1"
ahash = "=0.8.12"
lz4-compress = "=0.1.1"
byteorder = "=1.5.0"
rayon = "=1.12.0"
speedy = "=0.8.7"
ctrlc = "=3.5.2"
string-interner = "0.17"
