[package]
name = "toggle_solver"
version = "0.1.0"
edition = "2021"

[dependencies]
base64 = "0.13"
flate2 = "1"
priority-queue = "1"
stopwatch = "*"
