[package]
name = "libheifer"
version = "0.1.0"
edition = "2021"
publish = false

[dependencies]
brotli = "*"
brotli-decompressor = "*"
zlib-rs = "*"
jpeg-decoder = "*"
hpvca = "*"
rusty_h265 = "*"
oxideav-h265 = "*"
