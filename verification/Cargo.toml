[package]
name = "quote_of_the_week"
version = "0.1.0"
edition = "2021"
publish = false
