[package]
name = "perf_collector"
version = "0.1.0"
edition = "2021"
publish = false
