[package]
name = "drcov2lcov"
version = "0.1.0"
edition = "2021"
publish = false

[dependencies]
anyhow = "1"
byteorder = "1"
clap = { version = "4", features = ["derive"] }
env_logger = "*"
gimli = "*"
itertools = "*"
log = "0.4"
memmap2 = "*"
object = "*"
ouroboros = "*"
regex = "1"
roaring = "*"
