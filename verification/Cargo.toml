[package]
name = "scraper"
version = "0.1.0"
edition = "2021"
publish = false

[dependencies]
html5ever = "=0.26.0"
selectors = "=0.24.0"
cssparser = "=0.29.6"
smallvec = "1"
