[package]
name = "lambda_terms"
version = "0.1.0"
edition = "2021"

[dependencies]
itertools = "*"
lambda_calculus = "*"
