[package]
name = "pico_10base_t_rs"
version = "0.1.0"
edition = "2021"
publish = false

[dependencies]
smoltcp = { version = "0.13", default-features = false, features = ["medium-ethernet", "proto-ipv4", "socket-udp", "socket-tcp", "socket-icmp", "socket-dhcpv4", "socket-dns"] }
heapless = "0.8"
rp235x-hal = { version = "0.4", features = ["rt", "critical-section-impl", "binary-info"] }
pio = "0.3"
critical-section = "1"
embedded-hal = "1"
usb-device = "0.3"
usbd-serial = "0.2"
panic-halt = "*"
cyw43 = "0.7"
embassy-net-driver = "0.2"
embassy-sync = "*"
embassy-futures = "*"
embassy-time = { version = "*", features = ["generic-queue-16"] }
embassy-time-driver = { version = "*", features = ["tick-hz-1_000_000"] }
embassy-time-queue-utils = { version = "*", features = ["generic-queue-16"] }
embassy-executor = { version = "*", features = ["platform-riscv32", "executor-thread"] }
