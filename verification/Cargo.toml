[package]
name = "buddy_heap"
version = "0.1.0"
edition = "2021"
publish = false

[dependencies]
spin = "*"
fdt = "*"
lazy_static = { version = "*", features = ["spin_no_std"] }
memory_addr = "*"
page_table_multiarch = "*"
riscv = "*"
riscv-rt = "*"
uart_16550 = "*"
