[package]
name = "fs_btrfs"
version = "0.1.0"
edition = "2021"
publish = false

[dependencies]
am-fs-core = "*"
blake2b_simd = "1"
crc32c = "*"
lzo1x = "*"
miniz_oxide = "0.8"
ruzstd = "0.8"
sha2 = "0.10"
twox-hash = "2"
