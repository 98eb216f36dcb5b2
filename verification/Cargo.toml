[package]
name = "gcmalloc"
version = "0.1.0"
edition = "2021"
publish = false

[dependencies]
packed_struct = "=0.3.1"
parking_lot = "=0.12.5"
libc = "=0.2.191"
static_assertions = "=1.1.0"
syn = "=0.15.44"
quote = "=0.6.13"
lang_tester = "=0.7.6"
tempfile = "=3.27.0"
tempdir = "=0.3.7"
