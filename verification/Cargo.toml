[package]
name = "ruskcov"
version = "0.1.0"
edition = "2021"
publish = false

[dependencies]
anyhow = "=1.0.104"
crc = "=1.8.1"
ctor = "=1.0.13"
fallible-iterator = "=0.3.0"
findshlibs = "=0.10.2"
gimli = "=0.34.0"
internment = "=0.8.6"
intervaltree = "=0.2.7"
itertools = "=0.15.0"
lazycell = "=1.3.0"
libc = "=0.2.191"
memmap = "=0.7.0"
nix = { version = "=0.31.3", features = ["process", "ptrace", "signal"] }
object = "=0.40.0"
regex = "=1.13.1"
structopt = "=0.3.26"
tempfile = "=3.27.0"

[dev-dependencies]
bincode = "=1.3.3"
