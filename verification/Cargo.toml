[package]
name = "binning"
version = "0.1.0"
edition = "2021"
publish = false

[dependencies]
bytemuck = "=1.25.2"
polars-arrow = "=0.55.2"
polars-core = { version = "=0.55.2", default-features = false, features = ["dsl-schema", "dtype-categorical", "dtype-date", "dtype-datetime", "dtype-decimal", "dtype-duration", "dtype-i16", "dtype-i8", "dtype-struct", "dtype-time", "dtype-u128", "dtype-u16", "dtype-u8", "serde"] }
schemars = "=1.2.3"
serde = { version = "=1.0.229", features = ["derive"] }
