[package]
name = "lcd_effects"
version = "0.1.0"
edition = "2021"
publish = false

[dependencies]
cortex-m = "=0.7.9"
cortex-m-rt = "0.7"
display-interface = "=0.4.1"
display-interface-spi = "=0.4.1"
embedded-graphics = "=0.8.2"
embedded-graphics-core = "=0.4.1"
embedded-hal = "=0.2.7"
fugit = "=0.3.9"
rp2040-boot2 = "=0.2.1"
rp2040-hal = { version = "=0.8.2", features = ["rt", "critical-section-impl"] }
