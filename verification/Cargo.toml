[package]
name = "stm32_uart_loader"
version = "0.1.0"
edition = "2021"
publish = false

[dependencies]
embedded-hal = "0.2"
nb = "1"
linux-embedded-hal = "0.3"
log = "0.4"
simplelog = "*"
structopt = "0.3"
anyhow = "1"
bytefmt = "*"
thiserror = "1"
