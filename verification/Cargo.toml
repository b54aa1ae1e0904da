[package]
name = "manette"
version = "0.1.0"
edition = "2021"
publish = false

[dependencies]
unicode-segmentation = "=1.13.3"
cursive = "=0.21.1"
clap = "=4.6.7"
log = "=0.4.34"
flexi_logger = "=0.22.6"
cursive-flexi-logger-view = "=0.6.0"
unicode-width = "=0.2.2"
anyhow = "=1.0.104"
