[package]
name = "wooting_analog_plugin"
version = "0.1.0"
edition = "2021"
publish = false

[dependencies]
wooting-analog-plugin-dev = "=0.1.0"
hidapi = "=1.0.1"
log = "=0.4.34"
env_logger = "=0.11.11"
timer = "=0.2.0"
chrono = "=0.4.45"
