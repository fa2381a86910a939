[package]
name = "rkr_gst"
version = "0.1.0"
edition = "2021"
publish = false

[dependencies]
adler32 = "1"
bitvec = "1"
