[package]
name = "fraud_oxidizer"
version = "0.1.0"
edition = "2021"
publish = false

[dependencies]
chrono = { version = "=0.4.45", default-features = false, features = ["alloc"] }
my_country = { version = "=0.1.21", default-features = false, features = ["all_countries", "alpha2", "iso_short_name", "unofficial_names"] }
thiserror = "=2.0.21"
anyhow = "=1.0.104"
