[package]
name = "tonlib_cell"
version = "0.1.0"
edition = "2021"
publish = false

[dependencies]
async-trait = "=0.1.92"
bitstream-io = "=2.6.0"
crc = "3"
futures = "=0.3.34"
moka = { version = "=0.12.16", features = ["future"] }
sha2 = "0.10"
