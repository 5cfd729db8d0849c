[package]
name = "s3_demo"
version = "0.1.0"
edition = "2021"
publish = false

[dependencies]
rusoto_core = { version = "0.42", default-features = false, features = ["rustls"] }
rusoto_s3 = { version = "0.42", default-features = false, features = ["rustls"] }
structopt = "0.3"
