[package]
name = "async_buf_reader_utils"
version = "0.1.0"
edition = "2021"
publish = false

[dependencies]
async-std = "1"
futures = "0.3"
futures-core = "0.3"
