[package]
name = "eds"
version = "0.1.0"
edition = "2021"
publish = false

[dependencies]
byteorder = "1"
clap = "2"
csv = "1"
flate2 = "1"
hdf5 = "0.8"
log = "0.4"
pretty_env_logger = "0.4"
rand = "0.8"
rayon = "1"
