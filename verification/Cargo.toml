[package]
name = "breakfast_machine"
version = "0.1.0"
edition = "2021"
publish = false

[dependencies]
byteorder = "=1.5.0"
bytes = "=1.12.1"
rectangle-pack = "=0.4.2"
sdl2 = "=0.37.0"
glow = "=0.14.2"
imgui = "=0.12.0"
imgui-glow-renderer = "=0.13.0"
imgui-sdl2-support = "=0.13.0"
sharded-slab = "=0.1.7"
