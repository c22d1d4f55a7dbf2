[package]
name = "softraster"
version = "0.1.0"
edition = "2021"
publish = false

[dependencies]
env_logger = "0.9"
log = "0.4"
pixels = "0.9"
winit = "0.26"
winit_input_helper = "0.11"
