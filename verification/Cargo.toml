[package]
name = "qsalib"
version = "0.1.0"
edition = "2021"
publish = false

[dependencies]
ndarray = "*"
csv = "*"
structopt = "*"
inline-python = "*"
bam = "*"
