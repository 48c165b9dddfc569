[package]
name = "analyzer"
version = "0.1.0"
edition = "2021"
publish = false

[dependencies]
assert_no_alloc = "*"
realfft = "*"
rtrb = "*"
rustfft = "*"
thiserror = "*"
triple_buffer = "*"
