[package]
name = "xlsx_img_locator"
version = "0.1.0"
edition = "2021"
publish = false

[dependencies]
roxmltree = "*"
thiserror = "*"
zip = "*"
