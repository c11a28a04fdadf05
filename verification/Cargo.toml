[package]
name = "pg_hstore"
version = "0.1.0"
edition = "2021"
publish = false

[dependencies]
diesel = { version = "2", default-features = false, features = ["postgres_backend"] }
