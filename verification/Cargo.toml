[package]
name = "theme_generation"
version = "0.1.0"
edition = "2021"
publish = false

[dependencies]
color-name = "*"
notify = "*"
notify-debouncer-mini = "*"
palette = "*"
regex = "1"
serde_json = "1"
tera = "1"
toml = "*"
