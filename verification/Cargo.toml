[package]
name = "lucasdb"
version = "0.1.0"
edition = "2021"
publish = false

[dependencies]
crc32fast = "=1.5.2"
crossbeam-skiplist = "=0.1.3"
bytes = "=1.12.1"
fs2 = "=0.4.3"
fs_extra = "=1.3.0"
memmap2 = "=0.9.11"
parking_lot = "=0.12.5"
log = "=0.4.34"

[dev-dependencies]
crossbeam-utils = "*"
