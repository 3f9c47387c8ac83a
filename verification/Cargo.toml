[package]
name = "ozersk_gen"
version = "0.1.0"
edition = "2021"
publish = false

[dependencies]
base64 = "=0.21.7"
bincode = "=1.3.3"
log = "=0.4.34"
maze_generator = "=2.0.0"
once_cell = "=1.21.4"
parking_lot = "=0.12.5"
rand = "=0.8.8"
rrplug = "=2.1.1"
