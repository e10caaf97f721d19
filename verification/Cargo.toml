[package]
name = "brew"
version = "0.1.0"
edition = "2021"
publish = false

[dependencies]
anyhow = "1"
arboard = "3"
crossterm = "0.28"
edtui = "0.9"
lettre = "0.11"
mail-parser = "0.11"
notify-rust = "4"
ratatui = "0.29"
serde = { version = "1", features = ["derive"] }
time = { version = "0.3", features = ["macros", "formatting"] }
toml = "0.8"
