[package]
name = "tty_form"
version = "0.1.0"
edition = "2021"
publish = false

[dependencies]
tty-interface = "*"
tty-text = "*"
crossterm = "*"
termion = "*"
