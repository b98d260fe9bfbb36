[package]
name = "outdated"
version = "0.1.0"
edition = "2021"
publish = false

[dependencies]
anyhow = "*"
git2 = { version = "*", default-features = false }
lettre = { version = "*", default-features = false, features = ["smtp-transport", "builder", "tokio1"] }
sqlx = { version = "*", features = ["postgres", "runtime-tokio"] }
tokio = { version = "*", features = ["macros", "rt-multi-thread"] }
