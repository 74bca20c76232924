[package]
name = "summary_metrics"
version = "0.1.0"
edition = "2021"

[dependencies]
clap = "3"
colored = "2"
num-format = "0.4"
prettytable-rs = "0.10"
