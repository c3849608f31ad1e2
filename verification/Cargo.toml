[package]
name = "post_tally"
version = "0.1.0"
edition = "2021"
publish = false

[dependencies]
roux = "*"
plotly = "*"
tokio = { version = "*", features = ["macros", "rt-multi-thread", "time"] }
dotenv_codegen = "*"
