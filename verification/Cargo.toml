[package]
name = "vc_reader"
version = "0.1.0"
edition = "2021"
publish = false

[dependencies]
aes = "0.8"
crc32fast = "1"
crossterm = "0.28"
exfat-fs = "*"
hmac = "0.12"
ntfs = "0.4"
pbkdf2 = "0.12"
ratatui = "0.29"
ripemd = "0.1"
rpassword = "7"
sha2 = "0.10"
streebog = "0.10"
whirlpool = "0.10"
