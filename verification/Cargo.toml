[package]
name = "tealdeer"
version = "1.3.1"
edition = "2021"
publish = false

[dependencies]
ansi_term = "=0.12.1"
app_dirs = "=1.2.1"
clap = "=2.34.0"
flate2 = "1"
pager = "=0.15.0"
serde = "=1.0.229"
serde_derive = "=1.0.229"
tar = "0.4"
toml = "0.5"

[dev-dependencies]
docopt = "=1.1.1"
